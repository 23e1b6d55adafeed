//! The editor event queue: a double-buffered publication channel between the
//! editor and its observers. Producers append to the write arena; `flip`
//! clears the read arena and swaps the two; observers walk the read arena
//! through an index iterator, so several observers can iterate one tick
//! independently.

use vstd::prelude::*;

use crate::cursor::Cursor;
use crate::position::BufferRange;
use crate::text::copy_range;

verus! {

/// Stable handle of a buffer: an index into the buffer slot table.
#[derive(Debug, Clone, Copy, PartialEq, Eq, Structural)]
pub struct BufferHandle(pub u32);

/// Stable handle of a buffer view: a (buffer, cursors) pair owned per
/// client.
#[derive(Debug, Clone, Copy, PartialEq, Eq, Structural)]
pub struct BufferViewHandle(pub u32);

/// A byte slice interned in the event queue's text arena.
#[derive(Debug, Clone, Copy, PartialEq, Eq, Structural)]
pub struct EditorEventText {
    from: u32,
    to: u32,
}

impl EditorEventText {
    pub closed spec fn from_val(self) -> int {
        self.from as int
    }

    pub closed spec fn to_val(self) -> int {
        self.to as int
    }

    /// Resolve the interned text against the queue's read arena.
    pub fn as_str(&self, events: &EditorEventQueue) -> (r: Vec<u8>)
        requires
            0 <= self.from_val() <= self.to_val() <= events.read_texts().len(),
        ensures
            r@ == events.read_texts().subrange(self.from_val(), self.to_val()),
    {
        copy_range(events.read.texts.as_slice(), self.from as usize, self.to as usize)
    }
}

/// A cursor slice interned in the event queue's cursor arena.
#[derive(Debug, Clone, Copy, PartialEq, Eq, Structural)]
pub struct EditorEventCursors {
    from: u32,
    to: u32,
}

impl EditorEventCursors {
    pub closed spec fn from_val(self) -> int {
        self.from as int
    }

    pub closed spec fn to_val(self) -> int {
        self.to as int
    }

    /// Resolve the interned cursors against the queue's read arena.
    pub fn as_cursors(&self, events: &EditorEventQueue) -> (r: Vec<Cursor>)
        requires
            0 <= self.from_val() <= self.to_val() <= events.read_cursors().len(),
        ensures
            r@ == events.read_cursors().subrange(self.from_val(), self.to_val()),
    {
        let mut r: Vec<Cursor> = Vec::new();
        let mut i = self.from as usize;
        let to = self.to as usize;
        while i < to
            invariant
                to == self.to_val(),
                self.from_val() <= i as int <= self.to_val()
                    <= events.read_cursors().len(),
                r@ == events.read_cursors().subrange(self.from_val(), i as int),
            decreases to - i,
        {
            r.push(events.read.cursors[i]);
            proof {
                assert(r@ =~= events.read_cursors().subrange(self.from_val(), i + 1 as int));
            }
            i = i + 1;
        }
        r
    }
}

/// What the editor tells its observers happened.
#[derive(Debug, Clone, Copy, PartialEq, Eq, Structural)]
pub enum EditorEvent {
    Idle,
    BufferOpen { handle: BufferHandle },
    BufferInsertText { handle: BufferHandle, range: BufferRange, text: EditorEventText },
    BufferDeleteText { handle: BufferHandle, range: BufferRange },
    BufferSave { handle: BufferHandle, new_path: bool },
    BufferClose { handle: BufferHandle },
    FixCursors { view_handle: BufferViewHandle, cursors: EditorEventCursors },
    BufferViewLostFocus { view_handle: BufferViewHandle },
}

struct EventQueue {
    events: Vec<EditorEvent>,
    texts: Vec<u8>,
    cursors: Vec<Cursor>,
}

/// Two arenas: producers fill `write`, observers read `read`, `flip`
/// exchanges them each tick.
pub struct EditorEventQueue {
    read: EventQueue,
    write: EventQueue,
}

impl EditorEventQueue {
    pub closed spec fn read_events(&self) -> Seq<EditorEvent> {
        self.read.events@
    }

    pub closed spec fn read_texts(&self) -> Seq<u8> {
        self.read.texts@
    }

    pub closed spec fn read_cursors(&self) -> Seq<Cursor> {
        self.read.cursors@
    }

    pub closed spec fn write_events(&self) -> Seq<EditorEvent> {
        self.write.events@
    }

    pub closed spec fn write_texts(&self) -> Seq<u8> {
        self.write.texts@
    }

    pub closed spec fn write_cursors(&self) -> Seq<Cursor> {
        self.write.cursors@
    }

    /// Every interned reference in the write arena resolves within it.
    pub open spec fn wf(&self) -> bool {
        &&& self.write_texts().len() <= u32::MAX
        &&& self.write_cursors().len() <= u32::MAX
        &&& forall|i: int| 0 <= i < self.write_events().len()
            ==> event_refs_within(#[trigger] self.write_events()[i],
                self.write_texts().len() as int, self.write_cursors().len() as int)
        &&& self.read_texts().len() <= u32::MAX
        &&& self.read_cursors().len() <= u32::MAX
        &&& forall|i: int| 0 <= i < self.read_events().len()
            ==> event_refs_within(#[trigger] self.read_events()[i],
                self.read_texts().len() as int, self.read_cursors().len() as int)
    }

    /// Bytes currently interned in the write arena.
    pub fn write_texts_len(&self) -> (r: usize)
        ensures
            r == self.write_texts().len(),
    {
        self.write.texts.len()
    }

    pub fn new() -> (r: Self)
        ensures
            r.wf(),
            r.read_events().len() == 0,
            r.write_events().len() == 0,
            r.write_texts().len() == 0,
            r.write_cursors().len() == 0,
    {
        Self {
            read: EventQueue { events: Vec::new(), texts: Vec::new(), cursors: Vec::new() },
            write: EventQueue { events: Vec::new(), texts: Vec::new(), cursors: Vec::new() },
        }
    }

    /// Clear the read arena and exchange the arenas: what was written
    /// becomes readable, and the next tick writes over the old read arena.
    pub fn flip(&mut self)
        requires
            old(self).wf(),
        ensures
            final(self).wf(),
            final(self).read_events() == old(self).write_events(),
            final(self).read_texts() == old(self).write_texts(),
            final(self).read_cursors() == old(self).write_cursors(),
            final(self).write_events().len() == 0,
            final(self).write_texts().len() == 0,
            final(self).write_cursors().len() == 0,
    {
        self.read.events.clear();
        self.read.texts.clear();
        self.read.cursors.clear();
        core::mem::swap(&mut self.read, &mut self.write);
        proof {
            assert forall|i: int| 0 <= i < self.read_events().len()
                implies event_refs_within(#[trigger] self.read_events()[i],
                    self.read_texts().len() as int, self.read_cursors().len() as int) by {
                assert(self.read_events()[i] == old(self).write_events()[i]);
            }
        }
    }

    /// Publish an event that carries no interned payload.
    pub fn enqueue(&mut self, event: EditorEvent)
        requires
            old(self).wf(),
            event_refs_within(event, old(self).write_texts().len() as int,
                old(self).write_cursors().len() as int),
        ensures
            final(self).wf(),
            final(self).write_events() == old(self).write_events().push(event),
            final(self).write_texts() == old(self).write_texts(),
            final(self).write_cursors() == old(self).write_cursors(),
            final(self).read_events() == old(self).read_events(),
            final(self).read_texts() == old(self).read_texts(),
            final(self).read_cursors() == old(self).read_cursors(),
    {
        self.write.events.push(event);
        proof {
            lemma_refs_within_push(old(self).write_events(), event,
                self.write_texts().len() as int, self.write_cursors().len() as int);
            assert forall|i: int| 0 <= i < self.read_events().len()
                implies event_refs_within(#[trigger] self.read_events()[i],
                    self.read_texts().len() as int, self.read_cursors().len() as int) by {
                assert(self.read_events()[i] == old(self).read_events()[i]);
                assert(event_refs_within(old(self).read_events()[i],
                    old(self).read_texts().len() as int,
                    old(self).read_cursors().len() as int));
            }
        }
    }

    /// Publish a buffer insertion: the text is interned into the write
    /// arena and the event refers to it by offsets.
    pub fn enqueue_buffer_insert(&mut self, handle: BufferHandle, range: BufferRange,
        text: &[u8])
        requires
            old(self).wf(),
            old(self).write_texts().len() + text@.len() <= u32::MAX,
        ensures
            final(self).wf(),
            final(self).write_texts() == old(self).write_texts() + text@,
            final(self).write_cursors() == old(self).write_cursors(),
            final(self).write_events().len() == old(self).write_events().len() + 1,
            final(self).write_events().drop_last() == old(self).write_events(),
            ({
                let e = final(self).write_events().last();
                &&& e is BufferInsertText
                &&& e->BufferInsertText_handle == handle
                &&& e->BufferInsertText_range == range
                &&& final(self).write_texts().subrange(
                    e->BufferInsertText_text.from_val(),
                    e->BufferInsertText_text.to_val()) == text@
            }),
            final(self).read_events() == old(self).read_events(),
            final(self).read_texts() == old(self).read_texts(),
            final(self).read_cursors() == old(self).read_cursors(),
    {
        let from = self.write.texts.len();
        crate::text::append_bytes(&mut self.write.texts, text);
        let interned = EditorEventText { from: from as u32, to: self.write.texts.len() as u32 };
        let event = EditorEvent::BufferInsertText { handle, range, text: interned };
        self.write.events.push(event);
        proof {
            assert(self.write_texts().subrange(from as int, self.write_texts().len() as int)
                =~= text@);
            assert(self.write_events().drop_last() =~= old(self).write_events());
            assert forall|i: int| 0 <= i < old(self).write_events().len()
                implies event_refs_within(#[trigger] old(self).write_events()[i],
                    self.write_texts().len() as int, self.write_cursors().len() as int) by {
                assert(event_refs_within(old(self).write_events()[i],
                    old(self).write_texts().len() as int,
                    old(self).write_cursors().len() as int));
            }
            lemma_refs_within_push(old(self).write_events(), event,
                self.write_texts().len() as int, self.write_cursors().len() as int);
            assert forall|i: int| 0 <= i < self.read_events().len()
                implies event_refs_within(#[trigger] self.read_events()[i],
                    self.read_texts().len() as int, self.read_cursors().len() as int) by {
                assert(self.read_events()[i] == old(self).read_events()[i]);
                assert(event_refs_within(old(self).read_events()[i],
                    old(self).read_texts().len() as int,
                    old(self).read_cursors().len() as int));
            }
        }
    }

    /// Publish a cursor fix-up: the cursors are interned into the write
    /// arena and the event refers to them by offsets.
    pub fn enqueue_fix_cursors(&mut self, handle: BufferViewHandle, cursors: &[Cursor])
        requires
            old(self).wf(),
            old(self).write_cursors().len() + cursors@.len() <= u32::MAX,
        ensures
            final(self).wf(),
            final(self).write_cursors() == old(self).write_cursors() + cursors@,
            final(self).write_texts() == old(self).write_texts(),
            final(self).write_events().len() == old(self).write_events().len() + 1,
            final(self).write_events().drop_last() == old(self).write_events(),
            ({
                let e = final(self).write_events().last();
                &&& e is FixCursors
                &&& e->FixCursors_view_handle == handle
                &&& final(self).write_cursors().subrange(
                    e->FixCursors_cursors.from_val(),
                    e->FixCursors_cursors.to_val()) == cursors@
            }),
            final(self).read_events() == old(self).read_events(),
            final(self).read_texts() == old(self).read_texts(),
            final(self).read_cursors() == old(self).read_cursors(),
    {
        let from = self.write.cursors.len();
        let mut i: usize = 0;
        while i < cursors.len()
            invariant
                i <= cursors@.len(),
                self.write.cursors@ == old(self).write_cursors() + cursors@.take(i as int),
                self.write.texts@ == old(self).write_texts(),
                self.write.events@ == old(self).write_events(),
                self.read.events@ == old(self).read_events(),
                self.read.texts@ == old(self).read_texts(),
                self.read.cursors@ == old(self).read_cursors(),
            decreases cursors@.len() - i,
        {
            self.write.cursors.push(cursors[i]);
            proof {
                assert(old(self).write_cursors() + cursors@.take(i as int)
                    + seq![cursors@[i as int]]
                    =~= old(self).write_cursors() + cursors@.take(i + 1 as int));
            }
            i = i + 1;
        }
        proof {
            assert(cursors@.take(cursors@.len() as int) =~= cursors@);
        }
        let interned = EditorEventCursors {
            from: from as u32,
            to: self.write.cursors.len() as u32,
        };
        let event = EditorEvent::FixCursors { view_handle: handle, cursors: interned };
        self.write.events.push(event);
        proof {
            assert(self.write_cursors().subrange(from as int,
                self.write_cursors().len() as int) =~= cursors@);
            assert(self.write_events().drop_last() =~= old(self).write_events());
            assert forall|i: int| 0 <= i < old(self).write_events().len()
                implies event_refs_within(#[trigger] old(self).write_events()[i],
                    self.write_texts().len() as int, self.write_cursors().len() as int) by {
                assert(event_refs_within(old(self).write_events()[i],
                    old(self).write_texts().len() as int,
                    old(self).write_cursors().len() as int));
            }
            lemma_refs_within_push(old(self).write_events(), event,
                self.write_texts().len() as int, self.write_cursors().len() as int);
            assert forall|i: int| 0 <= i < self.read_events().len()
                implies event_refs_within(#[trigger] self.read_events()[i],
                    self.read_texts().len() as int, self.read_cursors().len() as int) by {
                assert(self.read_events()[i] == old(self).read_events()[i]);
                assert(event_refs_within(old(self).read_events()[i],
                    old(self).read_texts().len() as int,
                    old(self).read_cursors().len() as int));
            }
        }
    }
}

/// Pushing an event whose references fit keeps every event's references
/// fitting.
proof fn lemma_refs_within_push(events: Seq<EditorEvent>, event: EditorEvent, texts_len: int,
    cursors_len: int)
    requires
        forall|i: int| 0 <= i < events.len()
            ==> event_refs_within(#[trigger] events[i], texts_len, cursors_len),
        event_refs_within(event, texts_len, cursors_len),
    ensures
        forall|i: int| 0 <= i < events.push(event).len()
            ==> event_refs_within(#[trigger] events.push(event)[i], texts_len, cursors_len),
{
    assert forall|i: int| 0 <= i < events.push(event).len()
        implies event_refs_within(#[trigger] events.push(event)[i], texts_len,
            cursors_len) by {
        if i < events.len() {
            assert(events.push(event)[i] == events[i]);
        } else {
            assert(events.push(event)[i] == event);
        }
    }
}

/// The interned references an event carries stay within the given arena
/// sizes.
pub open spec fn event_refs_within(e: EditorEvent, texts_len: int, cursors_len: int) -> bool {
    match e {
        EditorEvent::BufferInsertText { text, .. } => 0 <= text.from_val() <= text.to_val()
            <= texts_len,
        EditorEvent::FixCursors { cursors, .. } => 0 <= cursors.from_val()
            <= cursors.to_val() <= cursors_len,
        _ => true,
    }
}

/// An observer's walk over the read arena: holds only an index, so several
/// iterators can walk the same tick independently.
pub struct EditorEventIter {
    index: usize,
}

impl EditorEventIter {
    pub closed spec fn index_val(&self) -> int {
        self.index as int
    }

    pub fn new() -> (r: Self)
        ensures
            r.index_val() == 0,
    {
        Self { index: 0 }
    }

    /// The next unread event of the read arena, advancing the iterator.
    pub fn next(&mut self, queue: &EditorEventQueue) -> (r: Option<EditorEvent>)
        ensures
            old(self).index_val() < queue.read_events().len() ==> r == Some(
                queue.read_events()[old(self).index_val()])
                && final(self).index_val() == old(self).index_val() + 1,
            old(self).index_val() >= queue.read_events().len() ==> r is None
                && *final(self) == *old(self),
    {
        if self.index < queue.read.events.len() {
            let e = queue.read.events[self.index];
            self.index = self.index + 1;
            Some(e)
        } else {
            None
        }
    }
}

} // verus!
