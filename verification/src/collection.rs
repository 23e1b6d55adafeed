//! The buffer collection: slot-reuse storage of buffers under stable
//! handles, lookup by path, deferred removal so observers can react before
//! a buffer's contents vanish, and the insert-process supervision that
//! streams a child process's output into a buffer.

use vstd::prelude::*;

use crate::buffer::Buffer;
use crate::events::{BufferHandle, EditorEvent, EditorEventQueue};
use crate::position::BufferPosition;
use crate::server::{CommandSpec, PlatformProcessHandle, PlatformRequest, ProcessTag};
use crate::worddb::WordDatabase;

verus! {

/// One insert-process slot: where its output goes, what remains to write to
/// its input, and what it has produced that is not yet inserted.
pub struct InsertProcess {
    pub alive: bool,
    pub buffer_handle: BufferHandle,
    pub position: BufferPosition,
    pub input: Option<Vec<u8>>,
    pub output: Vec<u8>,
}

/// All buffers, with their insert processes.
pub struct BufferCollection {
    buffers: Vec<Buffer>,
    insert_processes: Vec<InsertProcess>,
}

impl BufferCollection {
    pub closed spec fn buffer_count(&self) -> int {
        self.buffers@.len() as int
    }

    pub closed spec fn buffers_seq(&self) -> Seq<Buffer> {
        self.buffers@
    }

    pub closed spec fn process_count(&self) -> int {
        self.insert_processes@.len() as int
    }

    pub closed spec fn processes_seq(&self) -> Seq<InsertProcess> {
        self.insert_processes@
    }

    /// Every buffer's content and history are well formed, and each sits in
    /// the slot its handle names.
    pub open spec fn wf(&self) -> bool {
        &&& self.buffers_seq().len() <= u32::MAX
        &&& forall|i: int| 0 <= i < self.buffers_seq().len()
            ==> (#[trigger] self.buffers_seq()[i]).content_wf()
                && self.buffers_seq()[i].history_wf()
                && self.buffers_seq()[i].handle_val() == BufferHandle(i as u32)
    }

    pub fn new() -> (r: Self)
        ensures
            r.wf(),
            r.buffer_count() == 0,
            r.process_count() == 0,
    {
        Self { buffers: Vec::new(), insert_processes: Vec::new() }
    }

    /// The handle of a buffer slot for new content: the lowest dead slot is
    /// reused, else the table grows by one; the slot starts from the fresh
    /// single-empty-line state and every other slot is untouched.
    pub fn add_new(&mut self) -> (r: BufferHandle)
        requires
            old(self).wf(),
            old(self).buffer_count() < u32::MAX,
        ensures
            final(self).wf(),
            final(self).process_count() == old(self).process_count(),
            (r.0 as int) < final(self).buffer_count(),
            final(self).buffers_seq()[r.0 as int].is_alive(),
            final(self).buffers_seq()[r.0 as int].lines() == seq![Seq::<u8>::empty()],
            forall|k: int| 0 <= k < old(self).buffer_count() && k != r.0 as int
                ==> final(self).buffers_seq()[k] == old(self).buffers_seq()[k],
            (exists|j: int| 0 <= j < old(self).buffer_count()
                && !(#[trigger] old(self).buffers_seq()[j]).is_alive()) ==> ({
                &&& final(self).buffer_count() == old(self).buffer_count()
                &&& !old(self).buffers_seq()[r.0 as int].is_alive()
                &&& forall|j: int| 0 <= j < r.0 as int
                    ==> (#[trigger] old(self).buffers_seq()[j]).is_alive()
            }),
            (forall|j: int| 0 <= j < old(self).buffer_count()
                ==> (#[trigger] old(self).buffers_seq()[j]).is_alive()) ==> ({
                &&& final(self).buffer_count() == old(self).buffer_count() + 1
                &&& r.0 as int == old(self).buffer_count()
            }),
    {
        let mut i: usize = 0;
        let n = self.buffers.len();
        while i < n
            invariant
                i <= n,
                n == self.buffers_seq().len(),
                self.wf(),
                n < u32::MAX,
                *self == *old(self),
                forall|j: int| 0 <= j < i
                    ==> (#[trigger] old(self).buffers_seq()[j]).is_alive(),
            decreases n - i,
        {
            if !self.buffers[i].is_alive_flag() {
                let handle = self.buffers[i].handle();
                revive(&mut self.buffers, i);
                proof {
                    assert(self.buffers_seq()[i as int].handle_val()
                        == BufferHandle(i as u32));
                }
                return BufferHandle(i as u32);
            }
            i = i + 1;
        }
        let handle = BufferHandle(n as u32);
        let buffer = Buffer::new(handle);
        self.buffers.push(buffer);
        proof {
            assert forall|k: int| 0 <= k < self.buffers_seq().len()
                implies (#[trigger] self.buffers_seq()[k]).content_wf()
                    && self.buffers_seq()[k].history_wf()
                    && self.buffers_seq()[k].handle_val() == BufferHandle(k as u32) by {
                if k < n {
                    assert(self.buffers_seq()[k] == old(self).buffers_seq()[k]);
                }
            }
        }
        handle
    }

    /// Read a buffer by handle; handles are collection-controlled, so an
    /// out-of-range handle is a caller bug and is excluded.
    pub fn get(&self, handle: BufferHandle) -> (r: &Buffer)
        requires
            (handle.0 as int) < self.buffer_count(),
        ensures
            r == &self.buffers_seq()[handle.0 as int],
    {
        &self.buffers[handle.0 as usize]
    }

    /// Write access to a buffer by handle.
    pub fn get_mut(&mut self, handle: BufferHandle) -> (r: &mut Buffer)
        requires
            (handle.0 as int) < old(self).buffer_count(),
        ensures
            final(self).buffers_seq() == old(self).buffers_seq().update(handle.0 as int,
                *final(r)),
            final(self).process_count() == old(self).process_count(),
    {
        &mut self.buffers[handle.0 as usize]
    }

    /// The handle of the first alive buffer whose path equals `path`, after
    /// stripping `root` from the buffer's own path when it leads with it;
    /// `None` exactly when no alive buffer's path matches (an empty `path`
    /// matches nothing).
    pub fn find_with_path(&self, root: &[u8], path: &[u8]) -> (r: Option<BufferHandle>)
        requires
            self.wf(),
        ensures
            r matches Some(h) ==> (h.0 as int) < self.buffer_count()
                && self.buffers_seq()[h.0 as int].is_alive()
                && path@.len() > 0
                && spec_path_matches(self.buffers_seq()[h.0 as int].path_view(), root@,
                    path@)
                && (forall|j: int| 0 <= j < h.0 as int
                    ==> !((#[trigger] self.buffers_seq()[j]).is_alive()
                        && spec_path_matches(self.buffers_seq()[j].path_view(), root@,
                        path@))),
            r is None ==> path@.len() == 0 || (forall|j: int| 0 <= j < self.buffer_count()
                ==> !((#[trigger] self.buffers_seq()[j]).is_alive()
                    && spec_path_matches(self.buffers_seq()[j].path_view(), root@,
                    path@))),
    {
        if path.len() == 0 {
            return None;
        }
        let mut i: usize = 0;
        let n = self.buffers.len();
        while i < n
            invariant
                i <= n,
                n == self.buffers_seq().len(),
                self.wf(),
                path@.len() > 0,
                forall|j: int| 0 <= j < i
                    ==> !((#[trigger] self.buffers_seq()[j]).is_alive()
                        && spec_path_matches(self.buffers_seq()[j].path_view(), root@,
                        path@)),
            decreases n - i,
        {
            let buffer = &self.buffers[i];
            if buffer.is_alive_flag() {
                let buffer_path = buffer.path_bytes();
                if path_matches(buffer_path, root, path) {
                    return Some(BufferHandle(i as u32));
                }
            }
            i = i + 1;
        }
        None
    }

    /// The handles of exactly the alive buffers, in slot order.
    pub fn iter(&self) -> (r: Vec<BufferHandle>)
        requires
            self.wf(),
        ensures
            r@ == alive_handles(self.buffers_seq(), self.buffer_count()),
            forall|k: int| 0 <= k < r@.len() ==> ((#[trigger] r@[k]).0 as int)
                < self.buffer_count(),
    {
        let mut r: Vec<BufferHandle> = Vec::new();
        let mut i: usize = 0;
        let n = self.buffers.len();
        while i < n
            invariant
                i <= n,
                n == self.buffers_seq().len(),
                self.wf(),
                r@ == alive_handles(self.buffers_seq(), i as int),
                forall|k: int| 0 <= k < r@.len() ==> ((#[trigger] r@[k]).0 as int)
                    < self.buffer_count(),
            decreases n - i,
        {
            if self.buffers[i].is_alive_flag() {
                r.push(BufferHandle(i as u32));
            }
            i = i + 1;
        }
        r
    }

    /// Publish that the buffer is closing, without freeing it yet, so
    /// observers can still read it.
    pub fn defer_remove(&self, handle: BufferHandle, events: &mut EditorEventQueue)
        requires
            (handle.0 as int) < self.buffer_count(),
            old(events).wf(),
        ensures
            final(events).wf(),
            self.buffers_seq()[handle.0 as int].is_alive() ==> final(events).write_events()
                == old(events).write_events().push(EditorEvent::BufferClose { handle }),
            !self.buffers_seq()[handle.0 as int].is_alive() ==> final(events)
                .write_events() == old(events).write_events(),
    {
        let buffer = &self.buffers[handle.0 as usize];
        if buffer.is_alive_flag() {
            events.enqueue(EditorEvent::BufferClose { handle });
        }
    }

    /// Actually dispose the buffer: its words leave the database, its slot
    /// is reset to the fresh state (dead, one empty line) for handle
    /// stability, and every other slot is untouched.
    pub fn remove(&mut self, handle: BufferHandle, word_database: &mut WordDatabase)
        requires
            old(self).wf(),
            (handle.0 as int) < old(self).buffer_count(),
        ensures
            final(self).wf(),
            final(self).buffer_count() == old(self).buffer_count(),
            final(self).process_count() == old(self).process_count(),
            !final(self).buffers_seq()[handle.0 as int].is_alive(),
            final(self).buffers_seq()[handle.0 as int].lines()
                == seq![Seq::<u8>::empty()],
            forall|k: int| 0 <= k < old(self).buffer_count() && k != handle.0 as int
                ==> final(self).buffers_seq()[k] == old(self).buffers_seq()[k],
            ({
                let b0 = old(self).buffers_seq()[handle.0 as int];
                &&& (!b0.caps().uses_word_database ==> *final(word_database)
                    == *old(word_database))
                &&& (b0.caps().uses_word_database
                    && crate::buffer::lines_ident_words(b0.lines()).to_multiset()
                        .subset_of(old(word_database)@)
                    ==> final(word_database)@ == old(word_database)@.sub(
                        crate::buffer::lines_ident_words(b0.lines()).to_multiset()))
            }),
    {
        proof {
            assert(old(self).buffers_seq()[handle.0 as int].content_wf());
            assert(old(self).buffers_seq()[handle.0 as int].handle_val()
                == BufferHandle(handle.0));
        }
        dispose_at(&mut self.buffers, handle.0 as usize, word_database);
        proof {
            assert forall|k: int| 0 <= k < self.buffers_seq().len()
                implies (#[trigger] self.buffers_seq()[k]).content_wf()
                    && self.buffers_seq()[k].history_wf()
                    && self.buffers_seq()[k].handle_val() == BufferHandle(k as u32) by {
                if k != handle.0 as int {
                    assert(self.buffers_seq()[k] == old(self).buffers_seq()[k]);
                }
            }
        }
    }

    /// Decide an insert-process spawn: take a dead slot or grow one, record
    /// in it where the output goes and what feeds the input, and hand the
    /// platform a spawn request carrying the command and the slot's tag.
    pub fn spawn_insert_process(&mut self, command: CommandSpec, buffer_handle: BufferHandle,
        position: BufferPosition, stdin: Option<Vec<u8>>,
        requests: &mut Vec<PlatformRequest>)
        requires
            old(self).process_count() < u32::MAX,
        ensures
            final(self).buffers_seq() == old(self).buffers_seq(),
            final(requests)@.len() == old(requests)@.len() + 1,
            final(requests)@.drop_last() == old(requests)@,
            old(self).process_count() <= final(self).process_count()
                <= old(self).process_count() + 1,
            exists|idx: int| {
                &&& 0 <= idx < final(self).process_count()
                &&& final(requests)@.last() == (PlatformRequest::SpawnProcess {
                    tag: ProcessTag::Buffer(idx as u32),
                    command,
                    buf_len: 4096,
                })
                &&& (#[trigger] final(self).processes_seq()[idx]).alive
                &&& final(self).processes_seq()[idx].buffer_handle == buffer_handle
                &&& final(self).processes_seq()[idx].position == position
                &&& final(self).processes_seq()[idx].input == stdin
                &&& final(self).processes_seq()[idx].output@.len() == 0
                &&& (idx < old(self).process_count() ==> !old(self).processes_seq()[
                    idx].alive && final(self).process_count()
                    == old(self).process_count())
                &&& (idx == old(self).process_count() ==> final(self).process_count()
                    == old(self).process_count() + 1)
                &&& forall|k: int| 0 <= k < old(self).process_count() && k != idx
                    ==> final(self).processes_seq()[k] == old(self).processes_seq()[k]
            },
    {
        let mut index: Option<usize> = None;
        let mut i: usize = 0;
        let n = self.insert_processes.len();
        while i < n
            invariant
                i <= n,
                n == self.insert_processes@.len(),
                index matches Some(idx) ==> idx < n
                    && !self.insert_processes@[idx as int].alive,
                *self == *old(self),
            decreases n - i,
        {
            if !self.insert_processes[i].alive {
                index = Some(i);
                i = n;
            } else {
                i = i + 1;
            }
        }
        let index = match index {
            Some(index) => index,
            None => {
                let index = self.insert_processes.len();
                self.insert_processes.push(InsertProcess {
                    alive: false,
                    buffer_handle,
                    position,
                    input: None,
                    output: Vec::new(),
                });
                index
            }
        };
        let slot = InsertProcess {
            alive: true,
            buffer_handle,
            position,
            input: stdin,
            output: Vec::new(),
        };
        self.insert_processes.set(index, slot);
        requests.push(PlatformRequest::SpawnProcess {
            tag: ProcessTag::Buffer(index as u32),
            command,
            buf_len: 4096,
        });
        proof {
            assert(requests@.drop_last() =~= old(requests)@);
            assert(0 <= index as int && (index as int) < self.process_count());
            assert((self.processes_seq()[index as int]).alive);
        }
    }

    /// A spawned insert process that had pending input gets its input
    /// closed; the slot's pending input is taken either way.
    pub fn on_process_spawned(&mut self, index: usize, handle: PlatformProcessHandle,
        requests: &mut Vec<PlatformRequest>)
        requires
            index < old(self).process_count(),
        ensures
            final(self).buffers_seq() == old(self).buffers_seq(),
            final(self).process_count() == old(self).process_count(),
            final(self).processes_seq()[index as int].input is None,
            ({
                let s0 = old(self).processes_seq()[index as int];
                let s1 = final(self).processes_seq()[index as int];
                s1.alive == s0.alive && s1.buffer_handle == s0.buffer_handle
                    && s1.position == s0.position && s1.output == s0.output
            }),
            forall|k: int| 0 <= k < old(self).process_count() && k != index
                ==> final(self).processes_seq()[k] == old(self).processes_seq()[k],
            old(self).processes_seq()[index as int].input is Some ==> final(requests)@
                == old(requests)@.push(PlatformRequest::CloseProcessInput { handle }),
            old(self).processes_seq()[index as int].input is None ==> final(requests)@
                == old(requests)@,
    {
        let taken = take_input(&mut self.insert_processes, index);
        match taken {
            Some(input) => {
                let _ = input;
                requests.push(PlatformRequest::CloseProcessInput { handle });
            }
            None => {}
        }
    }

    /// Accumulate an insert process's output; when it now holds a newline,
    /// the prefix through the last newline leaves the slot and is inserted
    /// into the tracked buffer at the tracked position (when the buffer is
    /// alive and has room), and sibling processes aimed at the same buffer
    /// have their positions shifted through the insertion.
    pub fn on_process_output(&mut self, word_database: &mut WordDatabase, index: usize,
        bytes: &[u8], events: &mut EditorEventQueue)
        requires
            old(self).wf(),
            index < old(self).process_count(),
            old(events).wf(),
        ensures
            final(self).wf(),
            final(events).wf(),
            final(self).process_count() == old(self).process_count(),
            ({
                let acc = old(self).processes_seq()[index as int].output@ + bytes@;
                let bh = old(self).processes_seq()[index as int].buffer_handle;
                let pos = old(self).processes_seq()[index as int].position;
                match spec_last_newline_end(acc) {
                    None => final(self).processes_seq()[index as int].output@ == acc
                        && final(self).buffers_seq() == old(self).buffers_seq()
                        && *final(events) == *old(events),
                    Some(cut) => (bh.0 as int) < old(self).buffer_count() ==> ({
                        let txt = acc.take(cut);
                        let b0 = old(self).buffers_seq()[bh.0 as int];
                        let sp = crate::buffer::sat_pos(b0.lines(), pos);
                        let can = b0.is_alive()
                            && crate::text::flatten_lines(b0.lines()).len() + txt.len()
                                <= u32::MAX
                            && old(events).write_texts().len() + txt.len() <= u32::MAX;
                        let rg = (crate::position::BufferRange {
                            from: sp,
                            to: crate::content::spec_insert_end(b0.lines(), sp, txt),
                        });
                        &&& final(self).processes_seq()[index as int].output@
                            == acc.skip(cut)
                        &&& (can ==> final(self).buffers_seq()[bh.0 as int].lines()
                            == crate::content::spec_insert_lines(b0.lines(), sp, txt))
                        &&& (!can ==> final(self).buffers_seq()[bh.0 as int].lines()
                            == b0.lines() && *final(events) == *old(events))
                        &&& (forall|k: int| 0 <= k < old(self).buffer_count()
                            && k != bh.0 as int ==> final(self).buffers_seq()[k]
                            == old(self).buffers_seq()[k])
                        &&& (can ==> forall|k: int| 0 <= k < old(self).process_count()
                            && k != index ==> #[trigger] final(self).processes_seq()[k]
                            == spec_shifted_slot(old(self).processes_seq()[k], bh, rg))
                        &&& (!can ==> forall|k: int| 0 <= k < old(self).process_count()
                            && k != index ==> #[trigger] final(self).processes_seq()[k]
                            == old(self).processes_seq()[k])
                    }),
                }
            }),
    {
        append_output(&mut self.insert_processes, index, bytes);
        let split = last_newline_end(&self.insert_processes[index].output);
        let len = match split {
            Some(len) => len,
            None => {
                return;
            }
        };
        let (buffer_handle, position) = {
            let p = &self.insert_processes[index];
            (p.buffer_handle, p.position)
        };
        if (buffer_handle.0 as usize) < self.buffers.len() {
            let text = take_output_prefix(&mut self.insert_processes, index, len);
            proof {
                assert(self.buffers_seq()[buffer_handle.0 as int].content_wf());
                assert(self.buffers_seq()[buffer_handle.0 as int].handle_val()
                    == BufferHandle(buffer_handle.0));
            }
            let ghost before = self.buffers_seq();
            let inserted = insert_in_buffer(&mut self.buffers, buffer_handle.0 as usize,
                word_database, position, text.as_slice(), events);
            proof {
                lemma_wf_transfer(before, self.buffers_seq(), buffer_handle.0 as int);
            }
            if let Some(range) = inserted {
                shift_processes(&mut self.insert_processes, buffer_handle, range);
            }
        }
    }

    /// A finished insert process goes dead and inserts whatever output
    /// remained into the tracked buffer (when the buffer is alive and has
    /// room).
    pub fn on_process_exit(&mut self, word_database: &mut WordDatabase, index: usize,
        events: &mut EditorEventQueue)
        requires
            old(self).wf(),
            index < old(self).process_count(),
            old(events).wf(),
        ensures
            final(self).wf(),
            final(events).wf(),
            final(self).process_count() == old(self).process_count(),
            !final(self).processes_seq()[index as int].alive,
            ({
                let rest = old(self).processes_seq()[index as int].output@;
                let bh = old(self).processes_seq()[index as int].buffer_handle;
                let pos = old(self).processes_seq()[index as int].position;
                &&& ((bh.0 as int) < old(self).buffer_count() ==> ({
                    let b0 = old(self).buffers_seq()[bh.0 as int];
                    let sp = crate::buffer::sat_pos(b0.lines(), pos);
                    let can = b0.is_alive()
                        && crate::text::flatten_lines(b0.lines()).len() + rest.len()
                            <= u32::MAX
                        && old(events).write_texts().len() + rest.len() <= u32::MAX;
                    &&& final(self).processes_seq()[index as int].output@.len() == 0
                    &&& (can && rest.len() > 0 ==> final(self).buffers_seq()[
                        bh.0 as int].lines() == crate::content::spec_insert_lines(
                        b0.lines(), sp, rest))
                    &&& (!(can && rest.len() > 0) ==> final(self).buffers_seq()[
                        bh.0 as int].lines() == b0.lines())
                    &&& (forall|k: int| 0 <= k < old(self).buffer_count()
                        && k != bh.0 as int ==> final(self).buffers_seq()[k]
                        == old(self).buffers_seq()[k])
                }))
                &&& ((bh.0 as int) >= old(self).buffer_count()
                    ==> final(self).buffers_seq() == old(self).buffers_seq())
            }),
    {
        mark_dead(&mut self.insert_processes, index);
        let (buffer_handle, position) = {
            let p = &self.insert_processes[index];
            (p.buffer_handle, p.position)
        };
        if (buffer_handle.0 as usize) < self.buffers.len() {
            let remaining = self.insert_processes[index].output.len();
            let text = take_output_prefix(&mut self.insert_processes, index, remaining);
            proof {
                assert(text@ =~= old(self).processes_seq()[index as int].output@);
                assert(self.buffers_seq()[buffer_handle.0 as int].content_wf());
                assert(self.buffers_seq()[buffer_handle.0 as int].handle_val()
                    == BufferHandle(buffer_handle.0));
            }
            let ghost before = self.buffers_seq();
            let _ = insert_in_buffer(&mut self.buffers, buffer_handle.0 as usize,
                word_database, position, text.as_slice(), events);
            proof {
                lemma_wf_transfer(before, self.buffers_seq(), buffer_handle.0 as int);
            }
        }
    }
}

/// The handles of the alive buffers among the first `n` slots, in order.
pub open spec fn alive_handles(buffers: Seq<Buffer>, n: int) -> Seq<BufferHandle>
    decreases n,
{
    if n <= 0 {
        Seq::empty()
    } else if buffers[n - 1].is_alive() {
        alive_handles(buffers, n - 1).push(BufferHandle((n - 1) as u32))
    } else {
        alive_handles(buffers, n - 1)
    }
}

/// Well-formedness carries over an update that keeps a slot well formed.
proof fn lemma_wf_transfer(before: Seq<Buffer>, after: Seq<Buffer>, index: int)
    requires
        before.len() == after.len(),
        before.len() <= u32::MAX,
        forall|i: int| 0 <= i < before.len() ==> (#[trigger] before[i]).content_wf()
            && before[i].history_wf() && before[i].handle_val() == BufferHandle(i as u32),
        forall|k: int| 0 <= k < before.len() && k != index
            ==> #[trigger] after[k] == before[k],
        0 <= index < after.len(),
        after[index].content_wf(),
        after[index].history_wf(),
        after[index].handle_val() == BufferHandle(index as u32),
    ensures
        forall|i: int| 0 <= i < after.len() ==> (#[trigger] after[i]).content_wf()
            && after[i].history_wf() && after[i].handle_val() == BufferHandle(i as u32),
{
}

/// Mark a slot alive again with fresh buffer state.
fn revive(buffers: &mut Vec<Buffer>, i: usize)
    requires
        i < old(buffers)@.len(),
        old(buffers)@[i as int].handle_val() == BufferHandle(i as u32),
    ensures
        final(buffers)@.len() == old(buffers)@.len(),
        final(buffers)@[i as int].is_alive(),
        final(buffers)@[i as int].content_wf(),
        final(buffers)@[i as int].history_wf(),
        final(buffers)@[i as int].handle_val() == BufferHandle(i as u32),
        final(buffers)@[i as int].lines() == seq![Seq::<u8>::empty()],
        forall|k: int| 0 <= k < old(buffers)@.len() && k != i
            ==> final(buffers)@[k] == old(buffers)@[k],
{
    let handle = buffers[i].handle();
    let fresh = Buffer::new(handle);
    buffers.set(i, fresh);
}

/// Dispose the buffer in slot `i`: words leave the database, the slot stays.
fn dispose_at(buffers: &mut Vec<Buffer>, i: usize, word_database: &mut WordDatabase)
    requires
        i < old(buffers)@.len(),
        old(buffers)@[i as int].content_wf(),
        old(buffers)@[i as int].handle_val() == BufferHandle(i as u32),
    ensures
        final(buffers)@.len() == old(buffers)@.len(),
        !final(buffers)@[i as int].is_alive(),
        final(buffers)@[i as int].content_wf(),
        final(buffers)@[i as int].history_wf(),
        final(buffers)@[i as int].handle_val() == BufferHandle(i as u32),
        final(buffers)@[i as int].lines() == seq![Seq::<u8>::empty()],
        forall|k: int| 0 <= k < old(buffers)@.len() && k != i
            ==> final(buffers)@[k] == old(buffers)@[k],
        ({
            let b0 = old(buffers)@[i as int];
            &&& (!b0.caps().uses_word_database ==> *final(word_database)
                == *old(word_database))
            &&& (b0.caps().uses_word_database
                && crate::buffer::lines_ident_words(b0.lines()).to_multiset().subset_of(
                    old(word_database)@)
                ==> final(word_database)@ == old(word_database)@.sub(
                    crate::buffer::lines_ident_words(b0.lines()).to_multiset()))
        }),
{
    let handle = buffers[i].handle();
    let mut taken = Buffer::new(handle);
    core::mem::swap(&mut taken, &mut buffers[i]);
    taken.remove_all_words_from_database(word_database);
    let mut fresh = Buffer::new(handle);
    fresh.set_alive(false);
    buffers.set(i, fresh);
}

/// A buffer path names `path`: directly, or with a leading `root` (and one
/// path separator after it) stripped.
pub open spec fn spec_path_matches(buffer_path: Seq<u8>, root: Seq<u8>, path: Seq<u8>)
    -> bool {
    ||| buffer_path == path
    ||| ({
        let rl = root.len() as int;
        &&& rl > 0
        &&& rl < buffer_path.len()
        &&& buffer_path.take(rl) == root
        &&& (if buffer_path[rl] == 0x2f {
            buffer_path.skip(rl + 1)
        } else {
            buffer_path.skip(rl)
        }) == path
    })
}

/// Whether the buffer's path equals `path` directly, or after stripping a
/// leading `root` and one separator.
fn path_matches(buffer_path: &[u8], root: &[u8], path: &[u8]) -> (r: bool)
    ensures
        r == spec_path_matches(buffer_path@, root@, path@),
{
    if crate::worddb::bytes_eq(buffer_path, path) {
        return true;
    }
    let rl = root.len();
    if rl > 0 && rl < buffer_path.len() {
        let mut k: usize = 0;
        let mut matches_root = true;
        let ghost mut bad: int = 0;
        while k < rl
            invariant
                k <= rl,
                rl < buffer_path@.len(),
                rl == root@.len(),
                matches_root ==> forall|t: int| 0 <= t < k
                    ==> #[trigger] buffer_path@[t] == root@[t],
                !matches_root ==> 0 <= bad < rl && buffer_path@[bad] != root@[bad],
            decreases rl - k,
        {
            if buffer_path[k] != root[k] {
                matches_root = false;
                proof {
                    bad = k as int;
                }
                k = rl;
            } else {
                k = k + 1;
            }
        }
        if matches_root {
            proof {
                assert(buffer_path@.take(rl as int) =~= root@);
            }
            let mut start = rl;
            if start < buffer_path.len() && buffer_path[start] == 0x2fu8 {
                start = start + 1;
            }
            let stripped = crate::text::copy_range(buffer_path, start, buffer_path.len());
            proof {
                assert(stripped@ =~= buffer_path@.skip(start as int));
            }
            return crate::worddb::bytes_eq(stripped.as_slice(), path);
        } else {
            proof {
                assert(buffer_path@.take(rl as int)[bad] != root@[bad]);
                assert(buffer_path@.take(rl as int) != root@);
            }
        }
    }
    false
}

/// One past the last newline of `s`, when it holds one.
pub open spec fn spec_last_newline_end(s: Seq<u8>) -> Option<int>
    decreases s.len(),
{
    if s.len() == 0 {
        None
    } else if s[s.len() - 1] == 10 {
        Some(s.len() as int)
    } else {
        spec_last_newline_end(s.drop_last())
    }
}

/// One past the last newline of `output`, when it holds one.
fn last_newline_end(output: &Vec<u8>) -> (r: Option<usize>)
    ensures
        r matches Some(len) ==> 1 <= len <= output@.len()
            && spec_last_newline_end(output@) == Some(len as int),
        r is None ==> spec_last_newline_end(output@) is None,
{
    let mut i = output.len();
    proof {
        assert(output@.take(output@.len() as int) =~= output@);
    }
    while i > 0
        invariant
            i <= output@.len(),
            spec_last_newline_end(output@) == spec_last_newline_end(output@.take(i as int)),
        decreases i,
    {
        i = i - 1;
        proof {
            assert(output@.take(i + 1 as int).drop_last() =~= output@.take(i as int));
            assert(output@.take(i + 1 as int).last() == output@[i as int]);
        }
        if output[i] == 10u8 {
            return Some(i + 1);
        }
    }
    proof {
        assert(output@.take(0) =~= Seq::<u8>::empty());
    }
    None
}

fn append_output(processes: &mut Vec<InsertProcess>, index: usize, bytes: &[u8])
    requires
        index < old(processes)@.len(),
    ensures
        final(processes)@.len() == old(processes)@.len(),
        final(processes)@[index as int].output@
            == old(processes)@[index as int].output@ + bytes@,
        ({
            let s0 = old(processes)@[index as int];
            let s1 = final(processes)@[index as int];
            s1.alive == s0.alive && s1.buffer_handle == s0.buffer_handle
                && s1.position == s0.position && s1.input == s0.input
        }),
        forall|k: int| 0 <= k < old(processes)@.len() && k != index
            ==> final(processes)@[k] == old(processes)@[k],
{
    let mut slot = InsertProcess {
        alive: false,
        buffer_handle: BufferHandle(0),
        position: BufferPosition { line_index: 0, column_byte_index: 0 },
        input: None,
        output: Vec::new(),
    };
    core::mem::swap(&mut slot, &mut processes[index]);
    crate::text::append_bytes(&mut slot.output, bytes);
    processes.set(index, slot);
}

fn take_output_prefix(processes: &mut Vec<InsertProcess>, index: usize, len: usize) -> (r:
    Vec<u8>)
    requires
        index < old(processes)@.len(),
        len <= old(processes)@[index as int].output@.len(),
    ensures
        final(processes)@.len() == old(processes)@.len(),
        r@ == old(processes)@[index as int].output@.take(len as int),
        final(processes)@[index as int].output@
            == old(processes)@[index as int].output@.skip(len as int),
        ({
            let s0 = old(processes)@[index as int];
            let s1 = final(processes)@[index as int];
            s1.alive == s0.alive && s1.buffer_handle == s0.buffer_handle
                && s1.position == s0.position && s1.input == s0.input
        }),
        forall|k: int| 0 <= k < old(processes)@.len() && k != index
            ==> final(processes)@[k] == old(processes)@[k],
{
    let mut slot = InsertProcess {
        alive: false,
        buffer_handle: BufferHandle(0),
        position: BufferPosition { line_index: 0, column_byte_index: 0 },
        input: None,
        output: Vec::new(),
    };
    core::mem::swap(&mut slot, &mut processes[index]);
    let taken = crate::text::copy_range(slot.output.as_slice(), 0, len);
    let rest = crate::text::copy_range(slot.output.as_slice(), len, slot.output.len());
    slot.output = rest;
    processes.set(index, slot);
    taken
}

fn take_input(processes: &mut Vec<InsertProcess>, index: usize) -> (r: Option<Vec<u8>>)
    requires
        index < old(processes)@.len(),
    ensures
        final(processes)@.len() == old(processes)@.len(),
        r == old(processes)@[index as int].input,
        final(processes)@[index as int].input is None,
        ({
            let s0 = old(processes)@[index as int];
            let s1 = final(processes)@[index as int];
            s1.alive == s0.alive && s1.buffer_handle == s0.buffer_handle
                && s1.position == s0.position && s1.output == s0.output
        }),
        forall|k: int| 0 <= k < old(processes)@.len() && k != index
            ==> final(processes)@[k] == old(processes)@[k],
{
    let mut slot = InsertProcess {
        alive: false,
        buffer_handle: BufferHandle(0),
        position: BufferPosition { line_index: 0, column_byte_index: 0 },
        input: None,
        output: Vec::new(),
    };
    core::mem::swap(&mut slot, &mut processes[index]);
    let taken = slot.input.take();
    processes.set(index, slot);
    taken
}

fn mark_dead(processes: &mut Vec<InsertProcess>, index: usize)
    requires
        index < old(processes)@.len(),
    ensures
        final(processes)@.len() == old(processes)@.len(),
        !final(processes)@[index as int].alive,
        ({
            let s0 = old(processes)@[index as int];
            let s1 = final(processes)@[index as int];
            s1.buffer_handle == s0.buffer_handle && s1.position == s0.position
                && s1.input == s0.input && s1.output == s0.output
        }),
        forall|k: int| 0 <= k < old(processes)@.len() && k != index
            ==> final(processes)@[k] == old(processes)@[k],
{
    let mut slot = InsertProcess {
        alive: false,
        buffer_handle: BufferHandle(0),
        position: BufferPosition { line_index: 0, column_byte_index: 0 },
        input: None,
        output: Vec::new(),
    };
    core::mem::swap(&mut slot, &mut processes[index]);
    slot.alive = false;
    processes.set(index, slot);
}

/// Insert text into the buffer at `index` when it is alive and the content
/// and the event arena still have room; otherwise change nothing.
fn insert_in_buffer(buffers: &mut Vec<Buffer>, index: usize, word_database: &mut
    WordDatabase, position: BufferPosition, text: &[u8], events: &mut EditorEventQueue)
    -> (r: Option<crate::position::BufferRange>)
    requires
        index < old(buffers)@.len(),
        old(buffers)@[index as int].content_wf(),
        old(buffers)@[index as int].history_wf(),
        old(buffers)@[index as int].handle_val() == BufferHandle(index as u32),
        old(events).wf(),
    ensures
        final(buffers)@.len() == old(buffers)@.len(),
        final(buffers)@[index as int].content_wf(),
        final(buffers)@[index as int].history_wf(),
        final(buffers)@[index as int].handle_val() == BufferHandle(index as u32),
        forall|k: int| 0 <= k < old(buffers)@.len() && k != index
            ==> final(buffers)@[k] == old(buffers)@[k],
        final(events).wf(),
        ({
            let b0 = old(buffers)@[index as int];
            let can = b0.is_alive()
                && crate::text::flatten_lines(b0.lines()).len() + text@.len()
                    <= u32::MAX
                && old(events).write_texts().len() + text@.len() <= u32::MAX;
            &&& (can <==> r is Some)
            &&& (can && text@.len() > 0 ==> ({
                let sp = crate::buffer::sat_pos(b0.lines(), position);
                &&& final(buffers)@[index as int].lines()
                    == crate::content::spec_insert_lines(b0.lines(), sp, text@)
                &&& r == Some(crate::position::BufferRange {
                    from: sp,
                    to: crate::content::spec_insert_end(b0.lines(), sp, text@),
                })
            }))
            &&& (!(can && text@.len() > 0) ==> final(buffers)@[index as int].lines()
                == b0.lines() && *final(events) == *old(events))
        }),
{
    let mut taken = Buffer::new(BufferHandle(index as u32));
    core::mem::swap(&mut taken, &mut buffers[index]);
    let fits = taken.content().flat_len_fits(text.len())
        && events.write_texts_len() <= 0xffffffffusize - text.len()
        && text.len() <= 0xffffffffusize;
    let r = if fits && taken.is_alive_flag() {
        Some(taken.insert_text(word_database, position, text, events))
    } else {
        None
    };
    buffers.set(index, taken);
    r
}

/// A position shift through an insertion applies when the range is ordered
/// and the shifted coordinates still fit.
pub open spec fn spec_shift_fits(p: BufferPosition, range: crate::position::BufferRange)
    -> bool {
    &&& crate::position::pos_le(range.from, range.to)
    &&& p.line_index + range.to.line_index <= u32::MAX
    &&& p.column_byte_index + range.to.column_byte_index <= u32::MAX
}

/// The slot after the sibling shift: a slot aimed at the edited buffer has
/// its position moved through the insertion, others are untouched.
pub open spec fn spec_shifted_slot(s: InsertProcess, buffer_handle: BufferHandle,
    range: crate::position::BufferRange) -> InsertProcess {
    if s.buffer_handle == buffer_handle && spec_shift_fits(s.position, range) {
        InsertProcess {
            position: s.position.spec_insert(range),
            ..s
        }
    } else {
        s
    }
}

/// Shift every other insert process aimed at `buffer_handle` through the
/// inserted range.
fn shift_processes(processes: &mut Vec<InsertProcess>, buffer_handle: BufferHandle,
    range: crate::position::BufferRange)
    ensures
        final(processes)@.len() == old(processes)@.len(),
        forall|k: int| 0 <= k < old(processes)@.len() ==> #[trigger] final(processes)@[k]
            == spec_shifted_slot(old(processes)@[k], buffer_handle, range),
{
    let mut i: usize = 0;
    let n = processes.len();
    while i < n
        invariant
            i <= n,
            n == processes@.len(),
            forall|k: int| 0 <= k < i ==> #[trigger] processes@[k]
                == spec_shifted_slot(old(processes)@[k], buffer_handle, range),
            forall|k: int| i <= k < n ==> #[trigger] processes@[k]
                == old(processes)@[k],
        decreases n - i,
    {
        let same = processes[i].buffer_handle == buffer_handle;
        let p = processes[i].position;
        let fits = range.from.le(&range.to)
            && p.line_index as u64 + range.to.line_index as u64 <= 0xffffffffu64
            && p.column_byte_index as u64 + range.to.column_byte_index as u64
                <= 0xffffffffu64;
        if same && fits {
            let shifted = p.insert(range);
            let mut slot = InsertProcess {
                alive: false,
                buffer_handle: BufferHandle(0),
                position: BufferPosition { line_index: 0, column_byte_index: 0 },
                input: None,
                output: Vec::new(),
            };
            core::mem::swap(&mut slot, &mut processes[i]);
            slot.position = shifted;
            processes.set(i, slot);
        }
        i = i + 1;
    }
}

} // verus!
