//! Multi-cursor selections: a bounded collection of anchor/position pairs
//! with a designated main cursor. All mutation goes through a scoped guard;
//! applying the guard sorts the cursors by the start of their range and
//! fuses any two whose ranges touch or overlap, so the collection is always
//! sorted and pairwise disjoint afterwards.

use vstd::prelude::*;

use crate::content::{BufferContent, valid_position};
use crate::display::display_len;
use crate::position::{BufferPosition, BufferRange, pos_le, pos_lt};

verus! {

/// An anchor/position pair. Equal anchor and position is a caret; otherwise
/// the pair selects the text between them, in either orientation.
#[derive(Debug, Clone, Copy, PartialEq, Eq, Structural)]
pub struct Cursor {
    pub anchor: BufferPosition,
    pub position: BufferPosition,
}

/// The earlier endpoint of a cursor's range.
pub open spec fn cursor_from(c: Cursor) -> BufferPosition {
    if pos_le(c.anchor, c.position) {
        c.anchor
    } else {
        c.position
    }
}

/// The later endpoint of a cursor's range.
pub open spec fn cursor_to(c: Cursor) -> BufferPosition {
    if pos_le(c.anchor, c.position) {
        c.position
    } else {
        c.anchor
    }
}

impl Cursor {
    /// The caret at the origin.
    pub fn zero() -> (r: Self)
        ensures
            r.anchor.line_index == 0,
            r.anchor.column_byte_index == 0,
            r.position == r.anchor,
    {
        Self {
            anchor: BufferPosition { line_index: 0, column_byte_index: 0 },
            position: BufferPosition { line_index: 0, column_byte_index: 0 },
        }
    }

    /// The selected range, endpoints in order.
    pub fn to_range(&self) -> (r: BufferRange)
        ensures
            r.from == cursor_from(*self),
            r.to == cursor_to(*self),
            r.wf(),
    {
        BufferRange::between(self.anchor, self.position)
    }

    /// Shift both endpoints forward across an insertion.
    pub fn insert(&mut self, range: BufferRange)
        requires
            range.wf(),
            old(self).anchor.line_index + range.to.line_index - range.from.line_index
                <= u32::MAX,
            old(self).anchor.column_byte_index + range.to.column_byte_index <= u32::MAX,
            old(self).position.line_index + range.to.line_index - range.from.line_index
                <= u32::MAX,
            old(self).position.column_byte_index + range.to.column_byte_index <= u32::MAX,
        ensures
            final(self).anchor == old(self).anchor.spec_insert(range),
            final(self).position == old(self).position.spec_insert(range),
    {
        self.anchor = self.anchor.insert(range);
        self.position = self.position.insert(range);
    }

    /// Shift both endpoints backward across a deletion.
    pub fn delete(&mut self, range: BufferRange)
        requires
            range.wf(),
            range.from.column_byte_index + old(self).anchor.column_byte_index <= u32::MAX,
            range.from.column_byte_index + old(self).position.column_byte_index <= u32::MAX,
        ensures
            final(self).anchor == old(self).anchor.spec_delete(range),
            final(self).position == old(self).position.spec_delete(range),
    {
        self.anchor = self.anchor.delete(range);
        self.position = self.position.delete(range);
    }
}

/// Sorted by range start, and no two ranges overlap or touch.
pub open spec fn cursors_sorted_disjoint(cs: Seq<Cursor>) -> bool {
    forall|i: int| 0 <= i < cs.len() - 1
        ==> pos_lt(cursor_to(#[trigger] cs[i]), cursor_from(cs[i + 1]))
}

/// Sorted by range start only.
pub open spec fn cursors_sorted_by_from(cs: Seq<Cursor>) -> bool {
    forall|i: int, j: int| 0 <= i < j < cs.len()
        ==> pos_le(cursor_from(#[trigger] cs[i]), cursor_from(#[trigger] cs[j]))
}

/// Disjoint sorted cursors are in particular sorted by range start.
pub proof fn lemma_disjoint_implies_sorted(cs: Seq<Cursor>)
    requires
        cursors_sorted_disjoint(cs),
    ensures
        cursors_sorted_by_from(cs),
{
    assert forall|i: int, j: int| 0 <= i < j < cs.len()
        implies pos_le(cursor_from(#[trigger] cs[i]), cursor_from(#[trigger] cs[j])) by {
        lemma_chain(cs, i, j);
    }
}

proof fn lemma_chain(cs: Seq<Cursor>, i: int, j: int)
    requires
        cursors_sorted_disjoint(cs),
        0 <= i < j < cs.len(),
    ensures
        pos_lt(cursor_to(cs[i]), cursor_from(cs[j])),
        pos_le(cursor_from(cs[i]), cursor_from(cs[j])),
    decreases j - i,
{
    if j > i + 1 {
        lemma_chain(cs, i + 1, j);
    }
}

/// Fuse two touching or overlapping cursors, `a` being the one at the lower
/// index after sorting. The fused cursor spans both ranges and keeps `a`'s
/// orientation: anchor before position, or the reverse.
pub fn merge_cursors(a: Cursor, b: Cursor) -> (r: Cursor)
    requires
        pos_le(cursor_from(a), cursor_from(b)),
    ensures
        cursor_from(r) == cursor_from(a),
        cursor_to(r) == if pos_le(cursor_to(a), cursor_to(b)) {
            cursor_to(b)
        } else {
            cursor_to(a)
        },
        pos_le(a.anchor, a.position) ==> r.anchor == cursor_from(r)
            && r.position == cursor_to(r),
        !pos_le(a.anchor, a.position) ==> r.anchor == cursor_to(r)
            && r.position == cursor_from(r),
{
    let ra = a.to_range();
    let rb = b.to_range();
    let to = if ra.to.le(&rb.to) {
        rb.to
    } else {
        ra.to
    };
    if a.anchor.le(&a.position) {
        Cursor { anchor: ra.from, position: to }
    } else {
        Cursor { anchor: to, position: ra.from }
    }
}

/// Bounded collection of cursors with a designated main cursor. The
/// invariant holds between mutations: at least one cursor, no more than the
/// capacity, the main index in bounds, and the cursors sorted and disjoint.
pub struct CursorCollection {
    cursors: Vec<Cursor>,
    main_cursor_index: usize,
    saved_display_distances: Vec<u64>,
}

impl CursorCollection {
    /// The most cursors the collection holds.
    pub fn capacity() -> (r: usize)
        ensures
            r == 255,
    {
        255
    }

    pub closed spec fn cursors_seq(&self) -> Seq<Cursor> {
        self.cursors@
    }

    pub closed spec fn main_index(&self) -> int {
        self.main_cursor_index as int
    }

    pub closed spec fn saved_distances_seq(&self) -> Seq<u64> {
        self.saved_display_distances@
    }

    /// The collection invariant.
    pub open spec fn wf(&self) -> bool {
        &&& 1 <= self.cursors_seq().len() <= 255
        &&& 0 <= self.main_index() < self.cursors_seq().len()
        &&& cursors_sorted_disjoint(self.cursors_seq())
    }

    /// A fresh collection: one caret at the origin.
    pub fn new() -> (r: Self)
        ensures
            r.wf(),
            r.cursors_seq().len() == 1,
            r.main_index() == 0,
            r.cursors_seq()[0] == (Cursor {
                anchor: BufferPosition { line_index: 0, column_byte_index: 0 },
                position: BufferPosition { line_index: 0, column_byte_index: 0 },
            }),
            r.saved_distances_seq().len() == 0,
    {
        let mut cursors: Vec<Cursor> = Vec::new();
        cursors.push(Cursor::zero());
        Self { cursors, main_cursor_index: 0, saved_display_distances: Vec::new() }
    }

    pub fn len(&self) -> (r: usize)
        ensures
            r == self.cursors_seq().len(),
    {
        self.cursors.len()
    }

    /// Read one cursor.
    pub fn get(&self, index: usize) -> (r: Cursor)
        requires
            index < self.cursors_seq().len(),
        ensures
            r == self.cursors_seq()[index as int],
    {
        self.cursors[index]
    }

    pub fn main_cursor_index(&self) -> (r: usize)
        ensures
            r == self.main_index(),
    {
        self.main_cursor_index
    }

    /// The designated main cursor.
    pub fn main_cursor(&self) -> (r: Cursor)
        requires
            self.wf(),
        ensures
            r == self.cursors_seq()[self.main_index()],
    {
        self.cursors[self.main_cursor_index]
    }

    /// Open a scoped mutation: the guard takes the cursors; applying it
    /// restores the invariant and writes them back.
    pub fn mut_guard(&mut self) -> (g: CursorCollectionMutGuard)
        ensures
            g.cursors_seq() == old(self).cursors_seq(),
            g.main_index() == old(self).main_index(),
            g.saved_distances_seq() == old(self).saved_distances_seq(),
            !g.keeps_display_distances(),
            final(self).cursors_seq() == old(self).cursors_seq(),
            final(self).main_index() == old(self).main_index(),
    {
        let mut cursors: Vec<Cursor> = Vec::new();
        let mut i: usize = 0;
        let n = self.cursors.len();
        while i < n
            invariant
                n == self.cursors@.len(),
                i <= n,
                cursors@ == self.cursors@.take(i as int),
            decreases n - i,
        {
            cursors.push(self.cursors[i]);
            proof {
                assert(cursors@ =~= self.cursors@.take(i + 1 as int));
            }
            i = i + 1;
        }
        proof {
            assert(self.cursors@.take(n as int) =~= self.cursors@);
        }
        let mut saved: Vec<u64> = Vec::new();
        let mut j: usize = 0;
        let m = self.saved_display_distances.len();
        while j < m
            invariant
                m == self.saved_display_distances@.len(),
                j <= m,
                saved@ == self.saved_display_distances@.take(j as int),
            decreases m - j,
        {
            saved.push(self.saved_display_distances[j]);
            proof {
                assert(saved@ =~= self.saved_display_distances@.take(j + 1 as int));
            }
            j = j + 1;
        }
        proof {
            assert(self.saved_display_distances@.take(m as int)
                =~= self.saved_display_distances@);
        }
        CursorCollectionMutGuard {
            cursors,
            main_cursor_index: self.main_cursor_index,
            saved_display_distances: saved,
            keep_display_distances: false,
        }
    }

    /// Apply a finished mutation: reinstate a single caret if the guard left
    /// no cursor, sort by range start, fuse touching or overlapping cursors,
    /// rebind the main cursor to its position, and write everything back.
    pub fn apply_mut_guard(&mut self, guard: CursorCollectionMutGuard)
        ensures
            final(self).wf(),
            !guard.keeps_display_distances() ==> final(self).saved_distances_seq().len() == 0,
            guard.keeps_display_distances() ==> final(self).saved_distances_seq()
                == guard.saved_distances_seq(),
    {
        let CursorCollectionMutGuard {
            mut cursors,
            main_cursor_index,
            saved_display_distances,
            keep_display_distances,
        } = guard;

        if cursors.len() == 0 {
            cursors.push(Cursor::zero());
        }
        if cursors.len() > 255 {
            cursors.truncate(255);
        }
        let main_position = if main_cursor_index < cursors.len() {
            cursors[main_cursor_index].position
        } else {
            cursors[0].position
        };

        sort_cursors(&mut cursors);
        let merged = merge_sorted_cursors(&cursors);
        let main = find_main_index(&merged, main_position);

        self.cursors = merged;
        self.main_cursor_index = main;
        if keep_display_distances {
            self.saved_display_distances = saved_display_distances;
        } else {
            self.saved_display_distances = Vec::new();
        }
    }
}

/// Sort cursors in place by the start of their range (insertion sort).
fn sort_cursors(cursors: &mut Vec<Cursor>)
    ensures
        final(cursors)@.len() == old(cursors)@.len(),
        cursors_sorted_by_from(final(cursors)@),
        final(cursors)@.to_multiset() == old(cursors)@.to_multiset(),
{
    let n = cursors.len();
    let mut i: usize = 1;
    while i < n && n > 0
        invariant
            n == cursors@.len(),
            1 <= i || n == 0,
            i <= n || n == 0,
            cursors@.to_multiset() == old(cursors)@.to_multiset(),
            forall|a: int, b: int| 0 <= a < b < i && b < n
                ==> pos_le(cursor_from(#[trigger] cursors@[a]),
                    cursor_from(#[trigger] cursors@[b])),
        decreases n - i,
    {
        let mut j: usize = i;
        while j > 0 && cursors[j].to_range().from.lt(&cursors[j - 1].to_range().from)
            invariant
                n == cursors@.len(),
                0 <= j <= i < n,
                cursors@.to_multiset() == old(cursors)@.to_multiset(),
                forall|a: int, b: int| 0 <= a < b <= i as int && b != j as int
                    ==> pos_le(cursor_from(#[trigger] cursors@[a]),
                        cursor_from(#[trigger] cursors@[b])),
            decreases j,
        {
            let ghost before = cursors@;
            let tmp = cursors[j];
            let other = cursors[j - 1];
            cursors.set(j, other);
            cursors.set(j - 1, tmp);
            proof {
                assert(cursors@ =~= before.update(j as int, before[j - 1])
                    .update(j - 1, before[j as int]));
                lemma_swap_multiset(before, j - 1, j as int);
            }
            j = j - 1;
        }
        i = i + 1;
    }
}

/// Swapping two entries keeps the multiset of entries.
proof fn lemma_swap_multiset(s: Seq<Cursor>, a: int, b: int)
    requires
        0 <= a < b < s.len(),
    ensures
        s.update(b, s[a]).update(a, s[b]).to_multiset() == s.to_multiset(),
{
    let t = s.update(b, s[a]).update(a, s[b]);
    let u = s.update(b, s[a]);
    vstd::seq_lib::to_multiset_update(s, b, s[a]);
    vstd::seq_lib::to_multiset_update(u, a, s[b]);
    s.to_multiset_ensures();
    u.to_multiset_ensures();
    assert(u[a] == s[a]);
    assert(u.to_multiset() == s.to_multiset().insert(s[a]).remove(s[b]));
    assert(t.to_multiset() == u.to_multiset().insert(s[b]).remove(s[a]));
    assert(s.to_multiset().contains(s[a]));
    assert(s.to_multiset().contains(s[b]));
    assert(t.to_multiset() =~= s.to_multiset());
}

/// One forward pass over sorted cursors, fusing every run of touching or
/// overlapping ranges into one cursor that keeps the run's first
/// orientation.
fn merge_sorted_cursors(sorted: &Vec<Cursor>) -> (out: Vec<Cursor>)
    requires
        1 <= sorted@.len() <= 255,
        cursors_sorted_by_from(sorted@),
    ensures
        1 <= out@.len() <= sorted@.len(),
        cursors_sorted_disjoint(out@),
{
    let mut out: Vec<Cursor> = Vec::new();
    out.push(sorted[0]);
    let mut idx: usize = 1;
    while idx < sorted.len()
        invariant
            1 <= idx <= sorted@.len(),
            1 <= out@.len() <= idx,
            cursors_sorted_by_from(sorted@),
            cursors_sorted_disjoint(out@),
            pos_le(cursor_from(out@.last()), cursor_from(sorted@[idx - 1])),
        decreases sorted@.len() - idx,
    {
        let c = sorted[idx];
        let last = out[out.len() - 1];
        proof {
            assert(pos_le(cursor_from(sorted@[idx - 1]), cursor_from(sorted@[idx as int])));
        }
        if c.to_range().from.le(&last.to_range().to) {
            let fused = merge_cursors(last, c);
            let ghost prior = out@;
            let li = out.len() - 1;
            out.set(li, fused);
            proof {
                assert(out@ =~= prior.update(prior.len() - 1, fused));
                assert forall|k: int| 0 <= k < out@.len() - 1
                    implies pos_lt(cursor_to(#[trigger] out@[k]),
                        cursor_from(out@[k + 1])) by {
                    if k < out@.len() - 2 {
                        assert(out@[k] == prior[k]);
                        assert(out@[k + 1] == prior[k + 1]);
                    } else {
                        assert(out@[k] == prior[k]);
                        assert(cursor_from(fused) == cursor_from(prior.last()));
                    }
                }
            }
        } else {
            let ghost prior = out@;
            out.push(c);
            proof {
                assert(out@ =~= prior.push(c));
                assert forall|k: int| 0 <= k < out@.len() - 1
                    implies pos_lt(cursor_to(#[trigger] out@[k]),
                        cursor_from(out@[k + 1])) by {
                    if k < out@.len() - 2 {
                        assert(out@[k] == prior[k]);
                        assert(out@[k + 1] == prior[k + 1]);
                    } else {
                        assert(out@[k] == prior.last());
                        assert(out@[k + 1] == c);
                    }
                }
            }
        }
        idx = idx + 1;
    }
    out
}

/// The first cursor whose position equals `position`, or 0 when none does:
/// how the main cursor is rebound after sorting and merging.
fn find_main_index(cursors: &Vec<Cursor>, position: BufferPosition) -> (r: usize)
    requires
        cursors@.len() >= 1,
    ensures
        r < cursors@.len(),
        (exists|k: int| 0 <= k < cursors@.len() && (#[trigger] cursors@[k]).position
            == position) ==> cursors@[r as int].position == position,
{
    let mut k: usize = 0;
    while k < cursors.len()
        invariant
            k <= cursors@.len(),
            forall|j: int| 0 <= j < k ==> (#[trigger] cursors@[j]).position != position,
        decreases cursors@.len() - k,
    {
        if cursors[k].position == position {
            return k;
        }
        k = k + 1;
    }
    0
}

/// Scoped mutation over a cursor collection: free edits on a working copy,
/// then `CursorCollection::apply_mut_guard` restores the invariant.
pub struct CursorCollectionMutGuard {
    cursors: Vec<Cursor>,
    main_cursor_index: usize,
    saved_display_distances: Vec<u64>,
    keep_display_distances: bool,
}

impl CursorCollectionMutGuard {
    pub closed spec fn cursors_seq(&self) -> Seq<Cursor> {
        self.cursors@
    }

    pub closed spec fn main_index(&self) -> int {
        self.main_cursor_index as int
    }

    pub closed spec fn saved_distances_seq(&self) -> Seq<u64> {
        self.saved_display_distances@
    }

    pub closed spec fn keeps_display_distances(&self) -> bool {
        self.keep_display_distances
    }

    /// Remove every cursor. Applying the guard in this state reinstates a
    /// single caret at the origin.
    pub fn clear(&mut self)
        ensures
            final(self).cursors_seq().len() == 0,
            final(self).saved_distances_seq() == old(self).saved_distances_seq(),
            final(self).keeps_display_distances() == old(self).keeps_display_distances(),
    {
        self.cursors.clear();
    }

    pub fn len(&self) -> (r: usize)
        ensures
            r == self.cursors_seq().len(),
    {
        self.cursors.len()
    }

    /// Add a cursor and make it the main one; full collections ignore the
    /// addition.
    pub fn add(&mut self, cursor: Cursor)
        ensures
            old(self).cursors_seq().len() < 255 ==> final(self).cursors_seq()
                == old(self).cursors_seq().push(cursor)
                && final(self).main_index() == old(self).cursors_seq().len(),
            old(self).cursors_seq().len() >= 255 ==> final(self).cursors_seq()
                == old(self).cursors_seq()
                && final(self).main_index() == old(self).main_index(),
            final(self).saved_distances_seq() == old(self).saved_distances_seq(),
            final(self).keeps_display_distances() == old(self).keeps_display_distances(),
    {
        if self.cursors.len() < 255 {
            self.main_cursor_index = self.cursors.len();
            self.cursors.push(cursor);
        }
    }

    /// Read one cursor.
    pub fn get(&self, index: usize) -> (r: Cursor)
        requires
            index < self.cursors_seq().len(),
        ensures
            r == self.cursors_seq()[index as int],
    {
        self.cursors[index]
    }

    /// Overwrite one cursor.
    pub fn set(&mut self, index: usize, cursor: Cursor)
        requires
            index < old(self).cursors_seq().len(),
        ensures
            final(self).cursors_seq() == old(self).cursors_seq().update(index as int, cursor),
            final(self).main_index() == old(self).main_index(),
            final(self).saved_distances_seq() == old(self).saved_distances_seq(),
            final(self).keeps_display_distances() == old(self).keeps_display_distances(),
    {
        self.cursors.set(index, cursor);
    }

    pub fn set_main_cursor_index(&mut self, index: usize)
        ensures
            final(self).cursors_seq() == old(self).cursors_seq(),
            final(self).main_index() == if index <= 255 {
                index as int
            } else {
                255int
            },
            final(self).saved_distances_seq() == old(self).saved_distances_seq(),
            final(self).keeps_display_distances() == old(self).keeps_display_distances(),
    {
        self.main_cursor_index = if index <= 255 {
            index
        } else {
            255
        };
    }

    /// The main cursor, when its index is in bounds; the first otherwise.
    pub fn main_cursor(&self) -> (r: Cursor)
        requires
            self.cursors_seq().len() >= 1,
        ensures
            r == if self.main_index() < self.cursors_seq().len() {
                self.cursors_seq()[self.main_index()]
            } else {
                self.cursors_seq()[0]
            },
    {
        if self.main_cursor_index < self.cursors.len() {
            self.cursors[self.main_cursor_index]
        } else {
            self.cursors[0]
        }
    }

    /// Capture each cursor's tab-expanded display column so a later vertical
    /// movement can restore the column on jagged lines. Idempotent within
    /// one guard: once captured, further calls change nothing, and the
    /// distances survive the guard's application.
    pub fn save_display_distances(&mut self, content: &BufferContent, tab_size: u8)
        requires
            tab_size >= 1,
            content.wf(),
            forall|k: int| 0 <= k < old(self).cursors_seq().len() ==> valid_position(
                content.view_lines(), (#[trigger] old(self).cursors_seq()[k]).position),
        ensures
            final(self).cursors_seq() == old(self).cursors_seq(),
            final(self).main_index() == old(self).main_index(),
            final(self).keeps_display_distances(),
            old(self).saved_distances_seq().len() > 0 ==> final(self).saved_distances_seq()
                == old(self).saved_distances_seq(),
            old(self).saved_distances_seq().len() == 0 ==> final(self).saved_distances_seq()
                .len() == old(self).cursors_seq().len()
                // each saved distance is the tab-expanded display width of
                // the line prefix before that cursor's column
                && (forall|j: int| 0 <= j < old(self).cursors_seq().len()
                    ==> #[trigger] final(self).saved_distances_seq()[j] as int
                        == crate::display::spec_display_len(content.view_lines()[
                        old(self).cursors_seq()[j].position.line_index as int].take(
                        old(self).cursors_seq()[j].position.column_byte_index as int),
                        tab_size as int)),
    {
        self.keep_display_distances = true;
        if self.saved_display_distances.len() != 0 {
            return;
        }
        let mut k: usize = 0;
        let n = self.cursors.len();
        proof {
            content.lemma_wf_bounds();
        }
        while k < n
            invariant
                n == self.cursors@.len(),
                k <= n,
                tab_size >= 1,
                content.wf(),
                self.cursors@ == old(self).cursors_seq(),
                self.main_cursor_index == old(self).main_index(),
                self.keep_display_distances,
                self.saved_display_distances@.len() == k,
                forall|j: int| 0 <= j < n ==> valid_position(content.view_lines(),
                    (#[trigger] old(self).cursors_seq()[j]).position),
                forall|j: int| 0 <= j < k
                    ==> #[trigger] self.saved_display_distances@[j] as int
                        == crate::display::spec_display_len(content.view_lines()[
                        old(self).cursors_seq()[j].position.line_index as int].take(
                        old(self).cursors_seq()[j].position.column_byte_index as int),
                        tab_size as int),
            decreases n - k,
        {
            let c = self.cursors[k];
            proof {
                content.lemma_wf_bounds();
                assert(valid_position(content.view_lines(),
                    old(self).cursors_seq()[k as int].position));
                assert(c == old(self).cursors_seq()[k as int]);
            }
            let line = content.line_at(c.position.line_index as usize);
            let prefix = crate::text::copy_range(line.as_str(), 0,
                c.position.column_byte_index as usize);
            let distance = display_len(prefix.as_slice(), tab_size);
            proof {
                assert(prefix@ =~= content.view_lines()[c.position.line_index as int]
                    .take(c.position.column_byte_index as int));
            }
            self.saved_display_distances.push(distance);
            k = k + 1;
        }
    }

    /// The display distance captured for the cursor at `index`, when one
    /// was.
    pub fn get_saved_display_distance(&self, index: usize) -> (r: Option<u64>)
        ensures
            r is Some <==> (index as int) < self.saved_distances_seq().len(),
            r is Some ==> r->Some_0 == self.saved_distances_seq()[index as int],
    {
        if index < self.saved_display_distances.len() {
            Some(self.saved_display_distances[index])
        } else {
            None
        }
    }
}

} // verus!
