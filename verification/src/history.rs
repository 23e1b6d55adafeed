//! Undo/redo history: an append-only log of primitive edits grouped into
//! commits. Undoing yields the latest group's edits reversed and inverted;
//! redoing replays them forward. The edit-replay model proves that undoing
//! a group restores the exact line contents it started from.

use vstd::prelude::*;

use crate::content::{
    range_text, spec_delete_lines, spec_insert_end, spec_insert_lines, valid_position,
    valid_range, lemma_delete_then_insert_lines, lemma_insert_then_delete_lines,
};
use crate::position::BufferRange;
use crate::text::{find_byte, flatten_lines, nl, split_lines};

verus! {

/// Whether a primitive edit added text or removed it.
#[derive(Debug, Clone, Copy, PartialEq, Eq, Structural)]
pub enum EditKind {
    Insert,
    Delete,
}

/// A primitive edit: its kind, the range it covers, and the text it added
/// or removed.
pub struct Edit {
    pub kind: EditKind,
    pub range: BufferRange,
    pub text: Vec<u8>,
}

/// The mathematical form of an edit.
pub struct EditView {
    pub kind: EditKind,
    pub range: BufferRange,
    pub text: Seq<u8>,
}

impl View for Edit {
    type V = EditView;

    open spec fn view(&self) -> EditView {
        EditView { kind: self.kind, range: self.range, text: self.text@ }
    }
}

/// An edit fits the lines it is applied to: an insertion starts at a valid
/// position and covers exactly the range its text spans from there; a
/// deletion covers a valid range whose text it records.
pub open spec fn edit_applies(lines: Seq<Seq<u8>>, e: EditView) -> bool {
    match e.kind {
        EditKind::Insert => {
            &&& valid_position(lines, e.range.from)
            &&& e.range.to == spec_insert_end(lines, e.range.from, e.text)
            &&& e.range.from.column_byte_index + e.text.len() <= u32::MAX
            &&& e.range.from.line_index + split_lines(e.text).len() - 1 <= u32::MAX
            &&& flatten_lines(lines).len() + e.text.len() <= u32::MAX
        }
        EditKind::Delete => {
            &&& valid_range(lines, e.range)
            &&& e.text == range_text(lines, e.range)
        }
    }
}

/// The lines after applying one edit.
pub open spec fn apply_edit(lines: Seq<Seq<u8>>, e: EditView) -> Seq<Seq<u8>> {
    match e.kind {
        EditKind::Insert => spec_insert_lines(lines, e.range.from, e.text),
        EditKind::Delete => spec_delete_lines(lines, e.range),
    }
}

/// The lines after applying a sequence of edits in order.
pub open spec fn apply_edits(lines: Seq<Seq<u8>>, es: Seq<EditView>) -> Seq<Seq<u8>>
    decreases es.len(),
{
    if es.len() == 0 {
        lines
    } else {
        apply_edits(apply_edit(lines, es[0]), es.drop_first())
    }
}

/// Each edit in the sequence fits the lines produced by those before it.
pub open spec fn edits_apply(lines: Seq<Seq<u8>>, es: Seq<EditView>) -> bool
    decreases es.len(),
{
    if es.len() == 0 {
        true
    } else {
        edit_applies(lines, es[0]) && edits_apply(apply_edit(lines, es[0]), es.drop_first())
    }
}

/// The same edit with its action inverted.
pub open spec fn invert_edit(e: EditView) -> EditView {
    EditView {
        kind: match e.kind {
            EditKind::Insert => EditKind::Delete,
            EditKind::Delete => EditKind::Insert,
        },
        range: e.range,
        text: e.text,
    }
}

/// The inverse sequence: each edit inverted, in reverse order.
pub open spec fn invert_edits(es: Seq<EditView>) -> Seq<EditView> {
    es.reverse().map_values(|e: EditView| invert_edit(e))
}

/// All lines are newline-free.
pub open spec fn lines_no_nl(lines: Seq<Seq<u8>>) -> bool {
    forall|i: int| 0 <= i < lines.len() ==> find_byte(#[trigger] lines[i], nl()) < 0
}

/// Applying one fitting edit keeps the lines well formed, and its inverse
/// fits the result and undoes it.
pub proof fn lemma_edit_inverse(lines: Seq<Seq<u8>>, e: EditView)
    requires
        lines.len() >= 1,
        lines_no_nl(lines),
        flatten_lines(lines).len() <= u32::MAX,
        edit_applies(lines, e),
    ensures
        apply_edit(lines, e).len() >= 1,
        lines_no_nl(apply_edit(lines, e)),
        flatten_lines(apply_edit(lines, e)).len() <= u32::MAX,
        edit_applies(apply_edit(lines, e), invert_edit(e)),
        apply_edit(apply_edit(lines, e), invert_edit(e)) == lines,
{
    match e.kind {
        EditKind::Insert => {
            lemma_insert_then_delete_lines(lines, e.range.from, e.text);
            crate::content::lemma_insert_lines_keeps_no_nl(lines, e.range.from, e.text);
            crate::content::lemma_insert_flatten(lines, e.range.from, e.text);
            let inserted = spec_insert_lines(lines, e.range.from, e.text);
            let r = BufferRange {
                from: e.range.from,
                to: spec_insert_end(lines, e.range.from, e.text),
            };
            assert(r == e.range);
            assert(apply_edit(lines, e) == inserted);
            assert(valid_range(inserted, e.range));
            assert(range_text(inserted, e.range) == e.text);
            assert(edit_applies(inserted, invert_edit(e)));
        }
        EditKind::Delete => {
            lemma_delete_then_insert_lines(lines, e.range);
            crate::content::lemma_delete_lines_keeps_no_nl(lines, e.range);
            let deleted = spec_delete_lines(lines, e.range);
            let rt = range_text(lines, e.range);
            crate::content::lemma_insert_flatten(deleted, e.range.from, rt);
            assert(spec_insert_lines(deleted, e.range.from, rt) == lines);
            assert(flatten_lines(deleted).len() + rt.len() == flatten_lines(lines).len());
            crate::text::lemma_flatten_len(deleted);
            crate::text::lemma_split_lines_shape(rt);
            assert(e.range.from.column_byte_index <= deleted[e.range.from.line_index
                as int].len());
            assert(edit_applies(deleted, invert_edit(e)));
        }
    }
}

/// Undo restores the starting lines: applying a sequence of fitting edits
/// and then its inverse sequence yields exactly the lines the sequence
/// started from. Applying the inverse sequence fits throughout, so a
/// subsequent redo of the original sequence fits and replays forward again.
pub proof fn lemma_edits_undo(lines: Seq<Seq<u8>>, es: Seq<EditView>)
    requires
        lines.len() >= 1,
        lines_no_nl(lines),
        flatten_lines(lines).len() <= u32::MAX,
        edits_apply(lines, es),
    ensures
        apply_edits(lines, es).len() >= 1,
        lines_no_nl(apply_edits(lines, es)),
        flatten_lines(apply_edits(lines, es)).len() <= u32::MAX,
        edits_apply(apply_edits(lines, es), invert_edits(es)),
        apply_edits(apply_edits(lines, es), invert_edits(es)) == lines,
    decreases es.len(),
{
    if es.len() == 0 {
        assert(invert_edits(es) =~= Seq::<EditView>::empty());
    } else {
        let e = es[0];
        let rest = es.drop_first();
        let mid = apply_edit(lines, e);
        lemma_edit_inverse(lines, e);
        lemma_edits_undo(mid, rest);
        let inv = invert_edits(es);
        let inv_rest = invert_edits(rest);
        assert(es.reverse() =~= rest.reverse().push(e));
        assert(inv =~= inv_rest.push(invert_edit(e)));
        lemma_edits_snoc(apply_edits(lines, es), inv_rest, invert_edit(e));
        assert(apply_edits(apply_edits(lines, es), inv_rest) == mid);
        assert(apply_edits(apply_edits(lines, es), inv) == apply_edit(mid, invert_edit(e)));
    }
}

/// Applying a sequence with one edit appended applies the sequence, then
/// the edit; and the whole fits exactly when the parts fit in turn.
proof fn lemma_edits_snoc(lines: Seq<Seq<u8>>, es: Seq<EditView>, e: EditView)
    ensures
        apply_edits(lines, es.push(e)) == apply_edit(apply_edits(lines, es), e),
        edits_apply(lines, es.push(e)) <==> (edits_apply(lines, es)
            && edit_applies(apply_edits(lines, es), e)),
    decreases es.len(),
{
    if es.len() == 0 {
        reveal_with_fuel(apply_edits, 3);
        reveal_with_fuel(edits_apply, 3);
        assert(es.push(e)[0] == e);
        assert(es.push(e).drop_first() =~= Seq::<EditView>::empty());
        assert(apply_edits(lines, es.push(e)) == apply_edit(lines, e));
        assert(apply_edits(lines, es) == lines);
    } else {
        assert(es.push(e)[0] == es[0]);
        assert(es.push(e).drop_first() =~= es.drop_first().push(e));
        lemma_edits_snoc(apply_edit(lines, es[0]), es.drop_first(), e);
        assert(apply_edits(lines, es.push(e))
            == apply_edits(apply_edit(lines, es[0]), es.drop_first().push(e)));
        assert(apply_edits(lines, es) == apply_edits(apply_edit(lines, es[0]),
            es.drop_first()));
        assert(edits_apply(lines, es.push(e)) <==> (edit_applies(lines, es[0])
            && edits_apply(apply_edit(lines, es[0]), es.drop_first().push(e))));
    }
}

/// Append-only edit log with commit boundaries and an undo pointer.
pub struct History {
    edits: Vec<Edit>,
    group_ends: Vec<usize>,
    applied_groups: usize,
}

impl History {
    /// Boundaries ascend strictly and stay within the log, so every
    /// committed group holds at least one edit; the undo pointer stays
    /// within the committed groups; every edit belongs to a group or to the
    /// open tail.
    pub closed spec fn wf(&self) -> bool {
        &&& forall|i: int| 0 <= i < self.group_ends@.len()
            ==> #[trigger] self.group_ends@[i] <= self.edits@.len()
        &&& forall|i: int, j: int| 0 <= i < j < self.group_ends@.len()
            ==> #[trigger] self.group_ends@[i] < #[trigger] self.group_ends@[j]
        &&& self.group_ends@.len() > 0 ==> self.group_ends@[0] >= 1
        &&& self.applied_groups <= self.group_ends@.len()
    }

    /// Number of committed undo groups.
    pub closed spec fn group_count(&self) -> int {
        self.group_ends@.len() as int
    }

    /// How many committed groups are currently applied.
    pub closed spec fn applied_count(&self) -> int {
        self.applied_groups as int
    }

    /// The edits of committed group `g`, in order.
    pub closed spec fn group_edits(&self, g: int) -> Seq<EditView> {
        let start = if g == 0 {
            0int
        } else {
            self.group_ends@[g - 1] as int
        };
        self.edits@.subrange(start, self.group_ends@[g] as int).map_values(|e: Edit| e@)
    }

    /// The edits after the last commit boundary: the open group.
    pub closed spec fn open_edits(&self) -> Seq<EditView> {
        let start = if self.group_ends@.len() == 0 {
            0int
        } else {
            self.group_ends@.last() as int
        };
        self.edits@.subrange(start, self.edits@.len() as int).map_values(|e: Edit| e@)
    }

    pub fn new() -> (r: Self)
        ensures
            r.wf(),
            r.group_count() == 0,
            r.applied_count() == 0,
            r.open_edits().len() == 0,
    {
        let r = Self { edits: Vec::new(), group_ends: Vec::new(), applied_groups: 0 };
        proof {
            assert(r.open_edits() =~= Seq::<EditView>::empty());
        }
        r
    }

    /// Forget everything.
    pub fn clear(&mut self)
        ensures
            final(self).wf(),
            final(self).group_count() == 0,
            final(self).applied_count() == 0,
            final(self).open_edits().len() == 0,
    {
        self.edits.clear();
        self.group_ends.clear();
        self.applied_groups = 0;
        proof {
            assert(self.open_edits() =~= Seq::<EditView>::empty());
        }
    }

    /// Append an edit to the open group. A first edit after undos discards
    /// the groups that were undone.
    pub fn add_edit(&mut self, edit: Edit)
        requires
            old(self).wf(),
        ensures
            final(self).wf(),
            final(self).group_count() == final(self).applied_count(),
            final(self).applied_count() <= old(self).applied_count(),
            final(self).open_edits() == if old(self).applied_count()
                < old(self).group_count() {
                seq![edit@]
            } else {
                old(self).open_edits().push(edit@)
            },
    {
        if self.applied_groups < self.group_ends.len() {
            // drop the undone groups and any open tail
            let cut = if self.applied_groups == 0 {
                0
            } else {
                self.group_ends[self.applied_groups - 1]
            };
            self.edits.truncate(cut);
            self.group_ends.truncate(self.applied_groups);
        }
        let ghost before = self.edits@;
        self.edits.push(edit);
        proof {
            let start = if self.group_ends@.len() == 0 {
                0int
            } else {
                self.group_ends@.last() as int
            };
            assert(self.edits@.subrange(start, self.edits@.len() as int)
                =~= before.subrange(start, before.len() as int).push(edit));
            assert(self.open_edits() =~= before.subrange(start, before.len() as int)
                .map_values(|e: Edit| e@).push(edit@));
        }
    }

    /// Close the open group; a no-op when the open group is empty.
    pub fn commit_edits(&mut self)
        requires
            old(self).wf(),
        ensures
            final(self).wf(),
            final(self).open_edits().len() == 0,
            old(self).open_edits().len() == 0 ==> *final(self) == *old(self),
            old(self).open_edits().len() > 0 ==> final(self).group_count()
                == old(self).group_count() + 1
                && final(self).applied_count() == final(self).group_count()
                && final(self).group_edits(old(self).group_count())
                    == old(self).open_edits()
                && (forall|g: int| 0 <= g < old(self).group_count()
                    ==> final(self).group_edits(g) == old(self).group_edits(g)),
    {
        let open_start = if self.group_ends.len() == 0 {
            0
        } else {
            self.group_ends[self.group_ends.len() - 1]
        };
        if open_start < self.edits.len() {
            let ghost before_ends = self.group_ends@;
            let end = self.edits.len();
            self.group_ends.push(end);
            self.applied_groups = self.group_ends.len();
            proof {
                assert(self.group_ends@ =~= before_ends.push(end));
                assert(self.open_edits() =~= Seq::<EditView>::empty());
                assert(self.group_edits(before_ends.len() as int)
                    =~= old(self).open_edits());
                assert forall|g: int| 0 <= g < before_ends.len()
                    implies self.group_edits(g) == old(self).group_edits(g) by {
                    assert(self.group_ends@[g] == before_ends[g]);
                    if g > 0 {
                        assert(self.group_ends@[g - 1] == before_ends[g - 1]);
                    }
                }
            }
        }
    }

    /// The edits that undo the latest applied group: exactly that group's
    /// edits, reversed and inverted. Steps the undo pointer back past the
    /// group. An open uncommitted group is committed first; the result is
    /// empty exactly when no applied group is left to step over.
    pub fn undo_edits(&mut self) -> (r: Vec<Edit>)
        requires
            old(self).wf(),
        ensures
            final(self).wf(),
            final(self).group_count() >= final(self).applied_count(),
            final(self).open_edits().len() == 0,
            (r@.len() == 0) <==> (old(self).open_edits().len() == 0
                && old(self).applied_count() == 0),
            old(self).open_edits().len() == 0 ==> final(self).group_count()
                == old(self).group_count()
                && (forall|g: int| 0 <= g < old(self).group_count()
                    ==> final(self).group_edits(g) == old(self).group_edits(g)),
            old(self).open_edits().len() == 0 && old(self).applied_count() == 0
                ==> final(self).applied_count() == 0,
            old(self).open_edits().len() == 0 && old(self).applied_count() > 0
                ==> final(self).applied_count() == old(self).applied_count() - 1
                && r@.map_values(|e: Edit| e@) == invert_edits(old(self).group_edits(
                    old(self).applied_count() - 1)),
            old(self).open_edits().len() > 0 ==> final(self).group_count()
                == old(self).group_count() + 1
                && final(self).applied_count() == old(self).group_count()
                && (forall|g: int| 0 <= g < old(self).group_count()
                    ==> final(self).group_edits(g) == old(self).group_edits(g))
                && r@.map_values(|e: Edit| e@) == invert_edits(old(self).open_edits()),
    {
        self.commit_edits();
        if self.applied_groups == 0 {
            return Vec::new();
        }
        self.applied_groups = self.applied_groups - 1;
        let g = self.applied_groups;
        let ghost snap = *self;
        let start = if g == 0 {
            0
        } else {
            self.group_ends[g - 1]
        };
        let end = self.group_ends[g];
        proof {
            assert(start < end);
        }
        let mut r: Vec<Edit> = Vec::new();
        let mut i = end;
        while i > start
            invariant
                start <= i <= end,
                *self == snap,
                self.wf(),
                (g as int) < self.group_ends@.len(),
                start == if g == 0 { 0int } else { self.group_ends@[g - 1] as int },
                end == self.group_ends@[g as int],
                end <= self.edits@.len(),
                r@.map_values(|e: Edit| e@) == self.edits@.subrange(i as int, end as int)
                    .map_values(|e: Edit| e@).reverse()
                    .map_values(|e: EditView| invert_edit(e)),
            decreases i,
        {
            i = i - 1;
            let e = &self.edits[i];
            let text = crate::text::copy_range(e.text.as_slice(), 0, e.text.len());
            let inverted = Edit {
                kind: match e.kind {
                    EditKind::Insert => EditKind::Delete,
                    EditKind::Delete => EditKind::Insert,
                },
                range: e.range,
                text,
            };
            let ghost prior = r@;
            r.push(inverted);
            proof {
                assert(text@ =~= self.edits@[i as int].text@);
                assert(inverted@ == invert_edit(self.edits@[i as int]@));
                lemma_reverse_invert_step(self.edits@, i as int, end as int);
                assert(r@.map_values(|e2: Edit| e2@)
                    =~= prior.map_values(|e2: Edit| e2@).push(inverted@));
                assert(r@.map_values(|e2: Edit| e2@)
                    =~= self.edits@.subrange(i as int, end as int).map_values(|e2: Edit| e2@)
                        .reverse().map_values(|e2: EditView| invert_edit(e2)));
            }
        }
        proof {
            assert(self.group_edits(g as int) == self.edits@.subrange(start as int,
                end as int).map_values(|e2: Edit| e2@));
            assert(r@.map_values(|e2: Edit| e2@)
                == invert_edits(self.group_edits(g as int)));
            assert(r@.len() > 0);
        }
        r
    }

    /// The edits that redo the next group forward: exactly the next group's
    /// edits, in order with their original kinds. Steps the undo pointer
    /// forward past the group. An open uncommitted group is committed first
    /// (which leaves nothing to redo); the result is empty exactly when
    /// every group is already applied.
    pub fn redo_edits(&mut self) -> (r: Vec<Edit>)
        requires
            old(self).wf(),
        ensures
            final(self).wf(),
            final(self).open_edits().len() == 0,
            old(self).open_edits().len() > 0 ==> r@.len() == 0
                && final(self).group_count() == old(self).group_count() + 1
                && final(self).applied_count() == final(self).group_count()
                && (forall|g: int| 0 <= g < old(self).group_count()
                    ==> final(self).group_edits(g) == old(self).group_edits(g))
                && final(self).group_edits(old(self).group_count())
                    == old(self).open_edits(),
            old(self).open_edits().len() == 0 ==> final(self).group_count()
                == old(self).group_count()
                && (forall|g: int| 0 <= g < old(self).group_count()
                    ==> final(self).group_edits(g) == old(self).group_edits(g))
                && ((r@.len() == 0) <==> old(self).applied_count()
                    == old(self).group_count()),
            old(self).open_edits().len() == 0 && old(self).applied_count()
                == old(self).group_count() ==> final(self).applied_count()
                == old(self).applied_count(),
            old(self).open_edits().len() == 0 && old(self).applied_count()
                < old(self).group_count() ==> final(self).applied_count()
                == old(self).applied_count() + 1
                && r@.map_values(|e: Edit| e@)
                    == old(self).group_edits(old(self).applied_count()),
    {
        self.commit_edits();
        if self.applied_groups >= self.group_ends.len() {
            return Vec::new();
        }
        let g = self.applied_groups;
        self.applied_groups = g + 1;
        let ghost snap = *self;
        let start = if g == 0 {
            0
        } else {
            self.group_ends[g - 1]
        };
        let end = self.group_ends[g];
        proof {
            assert(start < end);
        }
        let mut r: Vec<Edit> = Vec::new();
        let mut i = start;
        while i < end
            invariant
                start <= i <= end,
                *self == snap,
                self.wf(),
                (g as int) < self.group_ends@.len(),
                start == if g == 0 { 0int } else { self.group_ends@[g - 1] as int },
                end == self.group_ends@[g as int],
                end <= self.edits@.len(),
                r@.map_values(|e: Edit| e@) == self.edits@.subrange(start as int, i as int)
                    .map_values(|e: Edit| e@),
            decreases end - i,
        {
            let e = &self.edits[i];
            let text = crate::text::copy_range(e.text.as_slice(), 0, e.text.len());
            let copied = Edit { kind: e.kind, range: e.range, text };
            let ghost prior = r@;
            r.push(copied);
            proof {
                assert(text@ =~= self.edits@[i as int].text@);
                assert(copied@ == self.edits@[i as int]@);
                assert(r@.map_values(|e2: Edit| e2@)
                    =~= prior.map_values(|e2: Edit| e2@).push(copied@));
                assert(r@.map_values(|e2: Edit| e2@)
                    =~= self.edits@.subrange(start as int, i + 1 as int)
                        .map_values(|e2: Edit| e2@));
            }
            i = i + 1;
        }
        proof {
            assert(self.group_edits(g as int) == self.edits@.subrange(start as int,
                end as int).map_values(|e2: Edit| e2@));
            assert(r@.map_values(|e2: Edit| e2@) == self.group_edits(g as int));
            assert(r@.len() > 0);
        }
        r
    }
}

/// Prepending one more edit to a reversed, inverted suffix.
proof fn lemma_reverse_invert_step(edits: Seq<Edit>, i: int, end: int)
    requires
        0 <= i < end <= edits.len(),
    ensures
        edits.subrange(i, end).map_values(|e: Edit| e@).reverse()
            .map_values(|e: EditView| invert_edit(e))
            == edits.subrange(i + 1, end).map_values(|e: Edit| e@).reverse()
                .map_values(|e: EditView| invert_edit(e)).push(invert_edit(edits[i]@)),
{
    let sub = edits.subrange(i, end).map_values(|e: Edit| e@);
    let sub1 = edits.subrange(i + 1, end).map_values(|e: Edit| e@);
    assert(sub =~= seq![edits[i]@] + sub1);
    assert(sub.reverse() =~= sub1.reverse().push(edits[i]@));
    assert(sub.reverse().map_values(|e: EditView| invert_edit(e))
        =~= sub1.reverse().map_values(|e: EditView| invert_edit(e))
            .push(invert_edit(edits[i]@)));
}

} // verus!
