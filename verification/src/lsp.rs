//! The language-server plugin's buffer-facing state: per-buffer diagnostics
//! kept sorted by position, and the versioned pending-edit queues that feed
//! the external synchroniser.

use vstd::prelude::*;

use crate::events::BufferHandle;
use crate::position::{BufferRange, pos_le};

verus! {

/// One diagnostic: its message and the range it covers.
pub struct Diagnostic {
    pub message: Vec<u8>,
    pub range: BufferRange,
}

/// The diagnostics of one path, and the buffer currently open at it.
pub struct BufferDiagnosticCollection {
    pub path: Vec<u8>,
    pub buffer_handle: Option<BufferHandle>,
    diagnostics: Vec<Diagnostic>,
    len: usize,
}

/// Sorted by the start of the covered range.
pub open spec fn diagnostics_sorted(ds: Seq<Diagnostic>) -> bool {
    forall|i: int, j: int| 0 <= i < j < ds.len()
        ==> pos_le((#[trigger] ds[i]).range.from, (#[trigger] ds[j]).range.from)
}

impl BufferDiagnosticCollection {
    pub closed spec fn live_count(&self) -> int {
        self.len as int
    }

    pub closed spec fn diags(&self) -> Seq<Diagnostic> {
        self.diagnostics@
    }

    pub open spec fn wf(&self) -> bool {
        self.live_count() <= self.diags().len()
    }

    pub fn new(path: Vec<u8>, buffer_handle: Option<BufferHandle>) -> (r: Self)
        ensures
            r.wf(),
            r.live_count() == 0,
    {
        Self { path, buffer_handle, diagnostics: Vec::new(), len: 0 }
    }

    /// Start a new round of diagnostics, reusing the allocated entries.
    pub fn clear_live(&mut self)
        requires
            old(self).wf(),
        ensures
            final(self).wf(),
            final(self).live_count() == 0,
    {
        self.len = 0;
    }

    /// Record one more diagnostic, reusing a spare slot when one exists.
    pub fn add(&mut self, message: Vec<u8>, range: BufferRange)
        requires
            old(self).wf(),
            old(self).live_count() < usize::MAX,
        ensures
            final(self).wf(),
            final(self).live_count() == old(self).live_count() + 1,
    {
        let d = Diagnostic { message, range };
        if self.len < self.diagnostics.len() {
            self.diagnostics.set(self.len, d);
        } else {
            self.diagnostics.push(d);
        }
        self.len = self.len + 1;
    }

    /// Sort the live diagnostics by the start of their range.
    pub fn sort(&mut self)
        requires
            old(self).wf(),
        ensures
            final(self).wf(),
            final(self).live_count() == old(self).live_count(),
            diagnostics_sorted(final(self).diags().take(final(self).live_count())),
    {
        let n = self.len;
        let mut i: usize = 1;
        while i < n && n > 0
            invariant
                n == self.len,
                self.len <= self.diagnostics@.len(),
                1 <= i || n == 0,
                i <= n || n == 0,
                forall|a: int, b: int| 0 <= a < b < i && b < n
                    ==> pos_le((#[trigger] self.diagnostics@[a]).range.from,
                        (#[trigger] self.diagnostics@[b]).range.from),
            decreases n - i,
        {
            let mut j: usize = i;
            while j > 0 && pos_lt_exec(&self.diagnostics[j].range.from,
                &self.diagnostics[j - 1].range.from)
                invariant
                    n == self.len,
                    self.len <= self.diagnostics@.len(),
                    0 <= j <= i < n,
                    forall|a: int, b: int| 0 <= a < b <= i as int && b != j as int
                        ==> pos_le((#[trigger] self.diagnostics@[a]).range.from,
                            (#[trigger] self.diagnostics@[b]).range.from),
                decreases j,
            {
                swap_diags(&mut self.diagnostics, j - 1, j);
                j = j - 1;
            }
            i = i + 1;
        }
        proof {
            if n > 0 {
                assert(diagnostics_sorted(self.diags().take(n as int)));
            } else {
                assert(diagnostics_sorted(self.diags().take(0)));
            }
        }
    }

    /// Read the live diagnostics.
    pub fn live(&self) -> (r: Vec<BufferRange>)
        requires
            self.wf(),
        ensures
            r@.len() == self.live_count(),
    {
        let mut r: Vec<BufferRange> = Vec::new();
        let mut i: usize = 0;
        while i < self.len
            invariant
                i <= self.len,
                self.len <= self.diagnostics@.len(),
                r@.len() == i,
            decreases self.len - i,
        {
            r.push(self.diagnostics[i].range);
            i = i + 1;
        }
        r
    }
}

fn pos_lt_exec(a: &crate::position::BufferPosition, b: &crate::position::BufferPosition)
    -> (r: bool)
    ensures
        r == crate::position::pos_lt(*a, *b),
{
    a.lt(b)
}

fn swap_diags(ds: &mut Vec<Diagnostic>, a: usize, b: usize)
    requires
        a < b < old(ds)@.len(),
    ensures
        final(ds)@ == old(ds)@.update(b as int, old(ds)@[a as int]).update(a as int,
            old(ds)@[b as int]),
{
    let mut taken_a = Diagnostic {
        message: Vec::new(),
        range: BufferRange {
            from: crate::position::BufferPosition { line_index: 0, column_byte_index: 0 },
            to: crate::position::BufferPosition { line_index: 0, column_byte_index: 0 },
        },
    };
    core::mem::swap(&mut taken_a, &mut ds[a]);
    let mut taken_b = Diagnostic {
        message: Vec::new(),
        range: BufferRange {
            from: crate::position::BufferPosition { line_index: 0, column_byte_index: 0 },
            to: crate::position::BufferPosition { line_index: 0, column_byte_index: 0 },
        },
    };
    core::mem::swap(&mut taken_b, &mut ds[b]);
    ds.set(a, taken_b);
    ds.set(b, taken_a);
    proof {
        assert(final(ds)@ =~= old(ds)@.update(b as int, old(ds)@[a as int]).update(
            a as int, old(ds)@[b as int]));
    }
}

/// All paths' diagnostics.
pub struct DiagnosticCollection {
    collections: Vec<BufferDiagnosticCollection>,
}

impl DiagnosticCollection {
    pub closed spec fn count(&self) -> int {
        self.collections@.len() as int
    }

    pub fn new() -> (r: Self)
        ensures
            r.count() == 0,
    {
        Self { collections: Vec::new() }
    }

    /// The index of the collection bound to `buffer_handle`, when one is.
    pub fn buffer_diagnostics(&self, buffer_handle: BufferHandle) -> (r: Option<usize>)
        ensures
            r matches Some(i) ==> (i as int) < self.count(),
    {
        let mut i: usize = 0;
        let n = self.collections.len();
        while i < n
            invariant
                i <= n,
                n == self.collections@.len(),
            decreases n - i,
        {
            match self.collections[i].buffer_handle {
                Some(handle) => {
                    if handle == buffer_handle {
                        return Some(i);
                    }
                }
                None => {}
            }
            i = i + 1;
        }
        None
    }

    /// Read one path's collection.
    pub fn get(&self, index: usize) -> (r: &BufferDiagnosticCollection)
        requires
            (index as int) < self.count(),
    {
        &self.collections[index]
    }

    /// Install a fresh collection for a path.
    pub fn push(&mut self, collection: BufferDiagnosticCollection)
        ensures
            final(self).count() == old(self).count() + 1,
    {
        self.collections.push(collection);
    }

    /// Unbind a closed buffer from its diagnostics.
    pub fn on_close_buffer(&mut self, buffer_handle: BufferHandle)
        ensures
            final(self).count() == old(self).count(),
    {
        let mut i: usize = 0;
        let n = self.collections.len();
        while i < n
            invariant
                i <= n,
                n == self.collections@.len(),
                n == old(self).count(),
            decreases n - i,
        {
            let matches_handle = match self.collections[i].buffer_handle {
                Some(handle) => handle == buffer_handle,
                None => false,
            };
            if matches_handle {
                unbind(&mut self.collections, i);
                proof {
                    assert(self.collections@.len() == n);
                }
                return;
            }
            i = i + 1;
        }
    }
}

fn unbind(collections: &mut Vec<BufferDiagnosticCollection>, i: usize)
    requires
        i < old(collections)@.len(),
    ensures
        final(collections)@.len() == old(collections)@.len(),
{
    // the swap keeps the length; setting the slot back keeps it too
    let mut taken = BufferDiagnosticCollection::new(Vec::new(), None);
    core::mem::swap(&mut taken, &mut collections[i]);
    taken.buffer_handle = None;
    collections.set(i, taken);
}

/// One pending edit of a versioned buffer: its range and the slice of the
/// queue's text arena holding the inserted text.
pub struct VersionedBufferEdit {
    pub buffer_range: BufferRange,
    pub text_from: usize,
    pub text_to: usize,
}

/// A buffer's monotonically versioned pending-edit queue.
pub struct VersionedBuffer {
    version: usize,
    texts: Vec<u8>,
    pending_edits: Vec<VersionedBufferEdit>,
}

impl VersionedBuffer {
    pub closed spec fn version_val(&self) -> int {
        self.version as int
    }

    pub closed spec fn pending_count(&self) -> int {
        self.pending_edits@.len() as int
    }

    pub closed spec fn texts_len(&self) -> int {
        self.texts@.len() as int
    }

    /// Every queued edit's interned text lies within the text arena.
    pub closed spec fn edits_wf(&self) -> bool {
        forall|k: int| 0 <= k < self.pending_edits@.len()
            ==> 0 <= (#[trigger] self.pending_edits@[k]).text_from as int
                <= self.pending_edits@[k].text_to as int <= self.texts@.len()
    }

    /// Queued edit `k`: the range it covers and the text that replaces it.
    pub closed spec fn pending_edit_view(&self, k: int) -> (BufferRange, Seq<u8>) {
        let e = self.pending_edits@[k];
        (e.buffer_range, self.texts@.subrange(e.text_from as int, e.text_to as int))
    }

    pub fn new() -> (r: Self)
        ensures
            r.version_val() == 2,
            r.pending_count() == 0,
            r.texts_len() == 0,
            r.edits_wf(),
    {
        Self { version: 2, texts: Vec::new(), pending_edits: Vec::new() }
    }

    /// Drop the flushed edits and step the version forward.
    pub fn flush(&mut self)
        requires
            old(self).version_val() < usize::MAX,
        ensures
            final(self).pending_count() == 0,
            final(self).version_val() == old(self).version_val() + 1,
            final(self).edits_wf(),
    {
        self.texts.clear();
        self.pending_edits.clear();
        self.version = self.version + 1;
    }

    /// Forget everything and mark the buffer unsynchronised.
    pub fn dispose(&mut self)
        requires
            old(self).version_val() < usize::MAX,
        ensures
            final(self).pending_count() == 0,
            final(self).version_val() == 1,
            final(self).edits_wf(),
    {
        self.flush();
        self.version = 1;
    }

    /// Queue one edit, interning its text: the new last pending edit carries
    /// the given range and text, and the queued edits before it are kept.
    pub fn add_edit(&mut self, range: BufferRange, text: &[u8])
        requires
            old(self).edits_wf(),
            old(self).texts_len() + text@.len() <= usize::MAX,
        ensures
            final(self).pending_count() == old(self).pending_count() + 1,
            final(self).version_val() == old(self).version_val(),
            final(self).edits_wf(),
            final(self).pending_edit_view(old(self).pending_count()) == (range, text@),
            forall|k: int| 0 <= k < old(self).pending_count()
                ==> final(self).pending_edit_view(k) == old(self).pending_edit_view(k),
    {
        let from = self.texts.len();
        crate::text::append_bytes(&mut self.texts, text);
        let to = self.texts.len();
        self.pending_edits.push(VersionedBufferEdit {
            buffer_range: range,
            text_from: from,
            text_to: to,
        });
        proof {
            assert(self.texts@.subrange(from as int, to as int) =~= text@);
            assert forall|k: int| 0 <= k < old(self).pending_count()
                implies self.pending_edit_view(k) == old(self).pending_edit_view(k) by {
                assert(self.pending_edits@[k] == old(self).pending_edits@[k]);
                assert(self.texts@.subrange(old(self).pending_edits@[k].text_from as int,
                    old(self).pending_edits@[k].text_to as int)
                    =~= old(self).texts@.subrange(
                    old(self).pending_edits@[k].text_from as int,
                    old(self).pending_edits@[k].text_to as int));
            }
        }
    }

    /// Read queued edit `k`: the range it covers and its interned text.
    pub fn pending_edit_at(&self, k: usize) -> (r: (BufferRange, Vec<u8>))
        requires
            self.edits_wf(),
            k < self.pending_count(),
        ensures
            r.0 == self.pending_edit_view(k as int).0,
            r.1@ == self.pending_edit_view(k as int).1,
    {
        let e = &self.pending_edits[k];
        let text = crate::text::copy_range(self.texts.as_slice(), e.text_from, e.text_to);
        (e.buffer_range, text)
    }
}

/// Per-buffer versioned queues, indexed by buffer handle.
pub struct VersionedBufferCollection {
    buffers: Vec<VersionedBuffer>,
}

impl VersionedBufferCollection {
    pub closed spec fn count(&self) -> int {
        self.buffers@.len() as int
    }

    /// The queue of buffer slot `k`, for contracts.
    pub closed spec fn buffer_at(&self, k: int) -> VersionedBuffer {
        self.buffers@[k]
    }

    /// Every slot's queue is well formed.
    pub open spec fn wf(&self) -> bool {
        forall|k: int| 0 <= k < self.count() ==> (#[trigger] self.buffer_at(k)).edits_wf()
    }

    pub fn new() -> (r: Self)
        ensures
            r.count() == 0,
            r.wf(),
    {
        Self { buffers: Vec::new() }
    }

    /// Queue an edit for `buffer_handle`, growing the table as needed: the
    /// handle's queue gains one edit that carries the given range and the
    /// interned text, and the other queues are untouched.
    pub fn add_edit(&mut self, buffer_handle: BufferHandle, range: BufferRange,
        text: &[u8])
        requires
            old(self).wf(),
            buffer_handle.0 < u32::MAX,
            text@.len() <= u32::MAX,
            (buffer_handle.0 as int) < old(self).count() ==> old(self).buffer_at(
                buffer_handle.0 as int).texts_len() + text@.len() <= usize::MAX,
        ensures
            final(self).wf(),
            final(self).count() > buffer_handle.0 as int,
            ({
                let q = final(self).buffer_at(buffer_handle.0 as int);
                let base = if (buffer_handle.0 as int) < old(self).count() {
                    old(self).buffer_at(buffer_handle.0 as int).pending_count()
                } else {
                    0int
                };
                &&& q.pending_count() == base + 1
                &&& q.pending_edit_view(base) == (range, text@)
                &&& ((buffer_handle.0 as int) < old(self).count() ==> forall|k: int|
                    0 <= k < base ==> q.pending_edit_view(k) == old(self).buffer_at(
                    buffer_handle.0 as int).pending_edit_view(k))
            }),
            forall|k: int| 0 <= k < old(self).count() && k != buffer_handle.0 as int
                ==> final(self).buffer_at(k) == old(self).buffer_at(k),
    {
        let index = buffer_handle.0 as usize;
        while self.buffers.len() <= index
            invariant
                index < u32::MAX,
                self.wf(),
                old(self).count() <= self.count(),
                forall|k: int| 0 <= k < old(self).count()
                    ==> #[trigger] self.buffer_at(k) == old(self).buffer_at(k),
                forall|k: int| old(self).count() <= k < self.count()
                    ==> (#[trigger] self.buffer_at(k)).pending_count() == 0
                        && self.buffer_at(k).texts_len() == 0
                        && self.buffer_at(k).edits_wf(),
            decreases index + 1 - self.buffers@.len(),
        {
            let ghost prev = *self;
            self.buffers.push(VersionedBuffer::new());
            proof {
                assert forall|k: int| 0 <= k < prev.count()
                    implies #[trigger] self.buffer_at(k) == prev.buffer_at(k) by {
                    assert(self.buffers@[k] == prev.buffers@[k]);
                }
                assert(self.buffer_at(prev.count()) == self.buffers@.last());
            }
        }
        let ghost grown = *self;
        proof {
            assert(grown.buffer_at(index as int).edits_wf());
            if (index as int) < old(self).count() {
                assert(grown.buffer_at(index as int) == old(self).buffer_at(index as int));
            }
        }
        add_edit_at(&mut self.buffers, index, range, text);
        proof {
            assert forall|k: int| 0 <= k < self.count()
                implies (#[trigger] self.buffer_at(k)).edits_wf() by {
                if k != index as int {
                    assert(self.buffers@[k] == grown.buffers@[k]);
                    assert(grown.buffer_at(k).edits_wf());
                }
            }
            assert forall|k: int| 0 <= k < old(self).count() && k != buffer_handle.0 as int
                implies self.buffer_at(k) == old(self).buffer_at(k) by {
                assert(self.buffers@[k] == grown.buffers@[k]);
                assert(grown.buffer_at(k) == old(self).buffer_at(k));
            }
        }
    }

    /// Reset the queue of a closed buffer.
    pub fn dispose(&mut self, buffer_handle: BufferHandle)
        requires
            old(self).wf(),
        ensures
            final(self).wf(),
            final(self).count() == old(self).count(),
            forall|k: int| 0 <= k < old(self).count() && k != buffer_handle.0 as int
                ==> final(self).buffer_at(k) == old(self).buffer_at(k),
    {
        let index = buffer_handle.0 as usize;
        if index < self.buffers.len() {
            proof {
                assert(old(self).buffer_at(index as int).edits_wf());
            }
            dispose_at(&mut self.buffers, index);
            proof {
                assert forall|k: int| 0 <= k < self.count()
                    implies (#[trigger] self.buffer_at(k)).edits_wf() by {
                    if k != index as int {
                        assert(self.buffers@[k] == old(self).buffers@[k]);
                        assert(old(self).buffer_at(k).edits_wf());
                    }
                }
            }
        }
    }

    /// The handles whose queues hold pending edits.
    pub fn pending_handles(&self) -> (r: Vec<BufferHandle>)
        ensures
            forall|k: int| 0 <= k < r@.len() ==> ((#[trigger] r@[k]).0 as int)
                < self.count(),
    {
        let mut r: Vec<BufferHandle> = Vec::new();
        let mut i: usize = 0;
        let n = self.buffers.len();
        while i < n && i < 0xffffffffusize
            invariant
                i <= n,
                n == self.buffers@.len(),
                forall|k: int| 0 <= k < r@.len() ==> ((#[trigger] r@[k]).0 as int)
                    < self.count(),
            decreases n - i,
        {
            if self.buffers[i].has_pending() {
                r.push(BufferHandle(i as u32));
            }
            i = i + 1;
        }
        r
    }
}

impl VersionedBuffer {
    /// Whether any edit waits to be synchronised.
    pub fn has_pending(&self) -> (r: bool)
        ensures
            r == (self.pending_count() > 0),
    {
        self.pending_edits.len() > 0
    }
}

fn add_edit_at(buffers: &mut Vec<VersionedBuffer>, index: usize, range: BufferRange,
    text: &[u8])
    requires
        index < old(buffers)@.len(),
        old(buffers)@[index as int].edits_wf(),
        old(buffers)@[index as int].texts_len() + text@.len() <= usize::MAX,
    ensures
        final(buffers)@.len() == old(buffers)@.len(),
        ({
            let q0 = old(buffers)@[index as int];
            let q = final(buffers)@[index as int];
            &&& q.edits_wf()
            &&& q.pending_count() == q0.pending_count() + 1
            &&& q.pending_edit_view(q0.pending_count()) == (range, text@)
            &&& (forall|k: int| 0 <= k < q0.pending_count()
                ==> q.pending_edit_view(k) == q0.pending_edit_view(k))
        }),
        forall|k: int| 0 <= k < old(buffers)@.len() && k != index
            ==> final(buffers)@[k] == old(buffers)@[k],
{
    let mut taken = VersionedBuffer::new();
    core::mem::swap(&mut taken, &mut buffers[index]);
    taken.add_edit(range, text);
    buffers.set(index, taken);
}

impl VersionedBufferCollection {
    /// How many edits wait in `buffer_handle`'s queue.
    pub fn pending_count_of(&self, buffer_handle: BufferHandle) -> (r: usize)
        requires
            (buffer_handle.0 as int) < self.count(),
        ensures
            r == self.buffer_at(buffer_handle.0 as int).pending_count(),
    {
        self.buffers[buffer_handle.0 as usize].pending_len()
    }

    /// Read queued edit `k` of `buffer_handle`'s queue, for the
    /// synchroniser to serialize.
    pub fn pending_edit(&self, buffer_handle: BufferHandle, k: usize)
        -> (r: (BufferRange, Vec<u8>))
        requires
            self.wf(),
            (buffer_handle.0 as int) < self.count(),
            k < self.buffer_at(buffer_handle.0 as int).pending_count(),
        ensures
            r.0 == self.buffer_at(buffer_handle.0 as int).pending_edit_view(k as int).0,
            r.1@ == self.buffer_at(buffer_handle.0 as int).pending_edit_view(k as int).1,
    {
        self.buffers[buffer_handle.0 as usize].pending_edit_at(k)
    }
}

impl VersionedBuffer {
    /// How many edits wait in the queue.
    pub fn pending_len(&self) -> (r: usize)
        ensures
            r == self.pending_count(),
    {
        self.pending_edits.len()
    }
}

fn dispose_at(buffers: &mut Vec<VersionedBuffer>, index: usize)
    requires
        index < old(buffers)@.len(),
        old(buffers)@[index as int].edits_wf(),
    ensures
        final(buffers)@.len() == old(buffers)@.len(),
        final(buffers)@[index as int].edits_wf(),
        forall|k: int| 0 <= k < old(buffers)@.len() && k != index
            ==> final(buffers)@[k] == old(buffers)@[k],
{
    let mut taken = VersionedBuffer::new();
    core::mem::swap(&mut taken, &mut buffers[index]);
    if taken.version_limit_ok() {
        taken.dispose();
    }
    buffers.set(index, taken);
}

impl VersionedBuffer {
    /// The version counter has room to step.
    pub fn version_limit_ok(&self) -> (r: bool)
        ensures
            r == (self.version_val() < usize::MAX),
    {
        self.version < usize::MAX
    }
}

/// What a request of the plugin is waiting on; idle when nothing is.
#[derive(Debug, Clone, Copy, PartialEq, Eq, Structural)]
pub enum RequestState {
    Idle,
    Definition,
    References,
    Rename,
    Completion,
    Formatting,
}

impl RequestState {
    pub fn is_idle(&self) -> (r: bool)
        ensures
            r == (*self is Idle),
    {
        matches!(self, RequestState::Idle)
    }
}

/// What handling a plugin message asks the editor to do next.
#[derive(Debug, Clone, Copy, PartialEq, Eq, Structural)]
pub enum ClientOperation {
    NoOperation,
    EnteredReadLineMode,
    EnteredPickerMode,
}

/// Whether an editor path and a server-reported path name the same file:
/// the server's root joined with its path, compared against the editor's
/// path (joined with the editor's root when relative).
pub fn is_editor_path_equals_to_lsp_path(editor_root: &[u8], editor_path: &[u8],
    lsp_root: &[u8], lsp_path: &[u8]) -> (r: bool) {
    let lsp_full = join_paths(lsp_root, lsp_path);
    let absolute = editor_path.len() > 0 && editor_path[0] == 0x2fu8;
    if absolute {
        crate::worddb::bytes_eq(editor_path, lsp_full.as_slice())
    } else {
        let editor_full = join_paths(editor_root, editor_path);
        crate::worddb::bytes_eq(editor_full.as_slice(), lsp_full.as_slice())
    }
}

/// `a` and `b` joined with a single separator.
fn join_paths(a: &[u8], b: &[u8]) -> (r: Vec<u8>) {
    let mut r = crate::text::copy_range(a, 0, a.len());
    if a.len() > 0 && b.len() > 0 {
        let last = a[a.len() - 1];
        let first = b[0];
        if last != 0x2fu8 && first != 0x2fu8 {
            r.push(0x2fu8);
        }
    }
    crate::text::append_bytes(&mut r, b);
    r
}

} // verus!
