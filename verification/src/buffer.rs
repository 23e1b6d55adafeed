//! A buffer: text content composed with its undo history, search-range
//! cache, capability flags, and the word-database bookkeeping that keeps the
//! identifier-word index in step with every edit.

use vstd::prelude::*;
use vstd::multiset::Multiset;

use crate::content::{
    BufferContent, range_text, spec_delete_lines, spec_insert_end, spec_insert_lines,
    valid_range,
};
use crate::events::{BufferHandle, EditorEvent, EditorEventQueue};
use crate::history::{apply_edits, edit_applies, Edit, EditKind, EditView, History};
use crate::position::{BufferPosition, BufferRange};
use crate::text::{flatten_lines, nl};
use crate::word::{ident_texts, identifier_words};
use crate::worddb::WordDatabase;

verus! {

/// Which behaviours a buffer takes part in.
#[derive(Debug, Clone, Copy, PartialEq, Eq, Structural)]
pub struct BufferCapabilities {
    pub has_history: bool,
    pub can_save: bool,
    pub uses_word_database: bool,
    pub auto_close: bool,
}

impl BufferCapabilities {
    /// An ordinary text file: saved, undoable, word-indexed.
    pub fn text() -> (r: Self)
        ensures
            r.has_history,
            r.can_save,
            r.uses_word_database,
            !r.auto_close,
    {
        Self { has_history: true, can_save: true, uses_word_database: true, auto_close: false }
    }

    /// A log view: nothing is saved, undone, or indexed.
    pub fn log() -> (r: Self)
        ensures
            !r.has_history,
            !r.can_save,
            !r.uses_word_database,
            !r.auto_close,
    {
        Self {
            has_history: false,
            can_save: false,
            uses_word_database: false,
            auto_close: false,
        }
    }
}

impl Default for BufferCapabilities {
    fn default() -> (r: Self)
        ensures
            !r.has_history,
            !r.can_save,
            !r.uses_word_database,
            !r.auto_close,
    {
        Self {
            has_history: false,
            can_save: false,
            uses_word_database: false,
            auto_close: false,
        }
    }
}

/// All identifier words of all lines, in order.
pub open spec fn lines_ident_words(lines: Seq<Seq<u8>>) -> Seq<Seq<u8>>
    decreases lines.len(),
{
    if lines.len() == 0 {
        Seq::empty()
    } else {
        ident_texts(lines[0]) + lines_ident_words(lines.drop_first())
    }
}

/// Word lists concatenate over line blocks, and their multisets add.
pub proof fn lemma_words_concat(a: Seq<Seq<u8>>, b: Seq<Seq<u8>>)
    ensures
        lines_ident_words(a + b).to_multiset()
            == lines_ident_words(a).to_multiset().add(lines_ident_words(b).to_multiset()),
    decreases a.len(),
{
    if a.len() == 0 {
        assert(a + b =~= b);
        Seq::<Seq<u8>>::empty().to_multiset_ensures();
        assert(lines_ident_words(a) =~= Seq::<Seq<u8>>::empty());
        assert(lines_ident_words(a).to_multiset().len() == 0);
        assert(lines_ident_words(a).to_multiset() =~= Multiset::empty());
        assert(Multiset::empty().add(lines_ident_words(b).to_multiset())
            =~= lines_ident_words(b).to_multiset());
    } else {
        assert((a + b).drop_first() =~= a.drop_first() + b);
        assert((a + b)[0] == a[0]);
        lemma_words_concat(a.drop_first(), b);
        vstd::seq_lib::lemma_multiset_commutative(ident_texts(a[0]),
            lines_ident_words(a.drop_first() + b));
        vstd::seq_lib::lemma_multiset_commutative(ident_texts(a[0]),
            lines_ident_words(a.drop_first()));
        assert(lines_ident_words(a + b).to_multiset()
            =~= lines_ident_words(a).to_multiset().add(lines_ident_words(b).to_multiset()));
    }
}

/// A single line's word list is just that line's words.
proof fn lemma_words_singleton(line: Seq<u8>)
    ensures
        lines_ident_words(seq![line]) == ident_texts(line),
{
    assert(seq![line].drop_first() =~= Seq::<Seq<u8>>::empty());
    assert(lines_ident_words(seq![line]) == ident_texts(line)
        + lines_ident_words(Seq::<Seq<u8>>::empty()));
    assert(ident_texts(line) + Seq::<Seq<u8>>::empty() =~= ident_texts(line));
}

/// Subtracting the empty multiset changes nothing.
proof fn lemma_sub_empty(m: Multiset<Seq<u8>>)
    ensures
        m.sub(Multiset::empty()) == m,
{
    assert(m.sub(Multiset::<Seq<u8>>::empty()) =~= m);
}

/// The word-index law for an edit: the words of the edited lines equal the
/// words of the old lines, less the words of the lines the edit touched,
/// plus the words of the lines that replaced them. This is exactly the
/// update the word database performs, so a database that mirrored the old
/// content mirrors the new.
pub proof fn lemma_word_index_update(
    lines: Seq<Seq<u8>>,
    touched_from: int,
    touched_until: int,
    replaced: Seq<Seq<u8>>,
    new_lines: Seq<Seq<u8>>,
    db: Multiset<Seq<u8>>,
)
    requires
        0 <= touched_from <= touched_until <= lines.len(),
        new_lines == lines.take(touched_from) + replaced + lines.skip(touched_until),
        db == lines_ident_words(lines).to_multiset(),
    ensures
        lines_ident_words(new_lines).to_multiset() == db.sub(lines_ident_words(
            lines.subrange(touched_from, touched_until)).to_multiset()).add(
            lines_ident_words(replaced).to_multiset()),
        lines_ident_words(lines.subrange(touched_from, touched_until)).to_multiset().subset_of(
            db),
{
    let pre = lines.take(touched_from);
    let mid = lines.subrange(touched_from, touched_until);
    let post = lines.skip(touched_until);
    assert(lines =~= pre + mid + post);
    lemma_words_concat(pre + mid, post);
    lemma_words_concat(pre, mid);
    lemma_words_concat(pre + replaced, post);
    lemma_words_concat(pre, replaced);
    assert(pre + mid + post =~= (pre + mid) + post);
    assert(new_lines =~= (pre + replaced) + post);
    let wp = lines_ident_words(pre).to_multiset();
    let wm = lines_ident_words(mid).to_multiset();
    let wq = lines_ident_words(post).to_multiset();
    let wr = lines_ident_words(replaced).to_multiset();
    assert(db =~= wp.add(wm).add(wq));
    assert(lines_ident_words(new_lines).to_multiset() =~= wp.add(wr).add(wq));
    assert(wp.add(wm).add(wq).sub(wm).add(wr) =~= wp.add(wr).add(wq));
    assert(wm.subset_of(wp.add(wm).add(wq)));
}

/// Remove one occurrence of each of the given line's identifier words from
/// the database: when the database held them all, the effect is exactly
/// subtracting the line's word multiset.
fn remove_line_words(db: &mut WordDatabase, line: &[u8])
    requires
        line@.len() <= u32::MAX,
    ensures
        ident_texts(line@).to_multiset().subset_of(old(db)@) ==> final(db)@
            == old(db)@.sub(ident_texts(line@).to_multiset()),
{
    let words = identifier_words(line);
    let ghost all = ident_texts(line@);
    let mut k: usize = 0;
    proof {
        all.to_multiset_ensures();
        assert(all.skip(0) =~= all);
        Seq::<Seq<u8>>::empty().to_multiset_ensures();
        assert(all.take(0) =~= Seq::<Seq<u8>>::empty());
        assert(all.take(0).to_multiset().len() == 0);
        assert(all.take(0).to_multiset() =~= Multiset::empty());
        lemma_sub_empty(old(db)@);
    }
    while k < words.len()
        invariant
            words@.map_values(|w: Vec<u8>| w@) == all,
            k <= all.len(),
            all.skip(0).to_multiset().subset_of(old(db)@) ==> db@
                == old(db)@.sub(all.take(k as int).to_multiset()),
        decreases words@.len() - k,
    {
        let ghost before = db@;
        db.remove(words[k].as_slice());
        proof {
            let w = all[k as int];
            assert(words@[k as int]@ == w);
            lemma_remove_step(old(db)@, before, db@, all, k as int);
        }
        k = k + 1;
    }
    proof {
        assert(all.take(all.len() as int) =~= all);
    }
}

/// One step of removing a word list from the database.
proof fn lemma_remove_step(
    start: Multiset<Seq<u8>>,
    before: Multiset<Seq<u8>>,
    after: Multiset<Seq<u8>>,
    all: Seq<Seq<u8>>,
    k: int,
)
    requires
        0 <= k < all.len(),
        all.skip(0).to_multiset().subset_of(start) ==> before
            == start.sub(all.take(k).to_multiset()),
        before.contains(all[k]) ==> after == before.remove(all[k]),
        !before.contains(all[k]) ==> after == before,
    ensures
        all.skip(0).to_multiset().subset_of(start) ==> after
            == start.sub(all.take(k + 1).to_multiset()),
{
    if all.skip(0).to_multiset().subset_of(start) {
        assert(all.skip(0) =~= all);
        all.to_multiset_ensures();
        all.take(k).to_multiset_ensures();
        all.take(k + 1).to_multiset_ensures();
        assert(all.take(k + 1) =~= all.take(k).push(all[k]));
        // the word still has an occurrence left in `before`
        lemma_take_counts(all, k);
        assert(before.count(all[k]) == start.count(all[k]) - all.take(k).to_multiset().count(
            all[k]));
        assert(all.to_multiset().count(all[k]) >= all.take(k).to_multiset().count(all[k])
            + 1);
        assert(start.count(all[k]) >= all.to_multiset().count(all[k]));
        assert(before.count(all[k]) >= 1);
        assert(before.contains(all[k]));
        assert(after =~= start.sub(all.take(k + 1).to_multiset()));
    }
}

/// A prefix's multiset counts never exceed the whole list's, and the element
/// at the cut has one more occurrence in the longer prefix.
proof fn lemma_take_counts(all: Seq<Seq<u8>>, k: int)
    requires
        0 <= k < all.len(),
    ensures
        forall|w: Seq<u8>| all.take(k).to_multiset().count(w)
            <= #[trigger] all.to_multiset().count(w),
        all.to_multiset().count(all[k]) >= all.take(k).to_multiset().count(all[k]) + 1,
{
    let pre = all.take(k);
    let midpost = all.skip(k);
    assert(all =~= pre + midpost);
    vstd::seq_lib::lemma_multiset_commutative(pre, midpost);
    assert(midpost[0] == all[k]);
    midpost.to_multiset_ensures();
    assert(midpost.contains(all[k]));
    assert(midpost.to_multiset().count(all[k]) >= 1);
}

/// Add one occurrence of each identifier word of the given line.
fn add_line_words(db: &mut WordDatabase, line: &[u8])
    requires
        line@.len() <= u32::MAX,
    ensures
        final(db)@ == old(db)@.add(ident_texts(line@).to_multiset()),
{
    let words = identifier_words(line);
    let ghost all = ident_texts(line@);
    let mut k: usize = 0;
    proof {
        Seq::<Seq<u8>>::empty().to_multiset_ensures();
        assert(all.take(0) =~= Seq::<Seq<u8>>::empty());
        assert(all.take(0).to_multiset().len() == 0);
        assert(db@.add(all.take(0).to_multiset()) =~= db@);
    }
    while k < words.len()
        invariant
            words@.map_values(|w: Vec<u8>| w@) == all,
            k <= all.len(),
            db@ == old(db)@.add(all.take(k as int).to_multiset()),
        decreases words@.len() - k,
    {
        db.add(words[k].as_slice());
        proof {
            assert(words@[k as int]@ == all[k as int]);
            all.take(k as int).to_multiset_ensures();
            assert(all.take(k + 1 as int) =~= all.take(k as int).push(all[k as int]));
            assert(old(db)@.add(all.take(k as int).to_multiset()).insert(all[k as int])
                =~= old(db)@.add(all.take(k + 1 as int).to_multiset()));
        }
        k = k + 1;
    }
    proof {
        assert(all.take(all.len() as int) =~= all);
    }
}

/// A buffer: content, history, search cache, highlighting, capabilities,
/// and liveness.
pub struct Buffer {
    alive: bool,
    handle: BufferHandle,
    pub path: Vec<u8>,
    content: BufferContent,
    history: History,
    search_ranges: Vec<BufferRange>,
    highlighted: crate::syntax::HighlightedBuffer,
    needs_save: bool,
    pub capabilities: BufferCapabilities,
}

impl Buffer {
    pub closed spec fn lines(&self) -> Seq<Seq<u8>> {
        self.content.view_lines()
    }

    pub closed spec fn content_wf(&self) -> bool {
        self.content.wf()
    }

    pub closed spec fn is_alive(&self) -> bool {
        self.alive
    }

    pub closed spec fn handle_val(&self) -> BufferHandle {
        self.handle
    }

    pub closed spec fn search_ranges_seq(&self) -> Seq<BufferRange> {
        self.search_ranges@
    }

    pub closed spec fn history_wf(&self) -> bool {
        self.history.wf()
    }

    /// The buffer's undo history, for contracts.
    pub closed spec fn hist(&self) -> History {
        self.history
    }

    /// The buffer's file path bytes, for contracts.
    pub closed spec fn path_view(&self) -> Seq<u8> {
        self.path@
    }

    pub fn new(handle: BufferHandle) -> (r: Self)
        ensures
            r.content_wf(),
            r.history_wf(),
            r.is_alive(),
            r.handle_val() == handle,
            r.lines() == seq![Seq::<u8>::empty()],
    {
        Self {
            alive: true,
            handle,
            path: Vec::new(),
            content: BufferContent::new(),
            history: History::new(),
            search_ranges: Vec::new(),
            highlighted: crate::syntax::HighlightedBuffer::new(),
            needs_save: false,
            capabilities: BufferCapabilities::default(),
        }
    }

    /// The buffer's highlighting, line by line.
    pub fn highlighted(&self) -> (r: &crate::syntax::HighlightedBuffer)
        ensures
            r.line_count() == self.highlight_line_count(),
            *r == self.highlight_view(),
    {
        &self.highlighted
    }

    pub closed spec fn highlight_view(&self) -> crate::syntax::HighlightedBuffer {
        self.highlighted
    }

    pub closed spec fn highlight_line_count(&self) -> int {
        self.highlighted.line_count()
    }

    /// Parse every line of the content anew under `syntax`: afterwards the
    /// highlighting holds tokens for exactly the content's lines.
    pub fn update_highlighting(&mut self, syntax: &crate::syntax::Syntax)
        requires
            old(self).content_wf(),
        ensures
            final(self).lines() == old(self).lines(),
            final(self).content_wf(),
            final(self).history_wf() == old(self).history_wf(),
            final(self).hist() == old(self).hist(),
            final(self).is_alive() == old(self).is_alive(),
            final(self).handle_val() == old(self).handle_val(),
            final(self).needs_save_flag() == old(self).needs_save_flag(),
            final(self).search_ranges_seq() == old(self).search_ranges_seq(),
            final(self).highlight_line_count() == old(self).lines().len(),
    {
        self.highlighted.highligh_all(syntax, &self.content);
    }

    pub fn handle(&self) -> (r: BufferHandle)
        ensures
            r == self.handle_val(),
    {
        self.handle
    }

    /// The buffer's file path bytes.
    pub fn path_bytes(&self) -> (r: &[u8])
        ensures
            r@ == self.path_view(),
    {
        self.path.as_slice()
    }

    /// Whether the buffer's slot is in use.
    pub fn is_alive_flag(&self) -> (r: bool)
        ensures
            r == self.is_alive(),
    {
        self.alive
    }

    pub fn content(&self) -> (r: &BufferContent)
        ensures
            r.view_lines() == self.lines(),
            self.content_wf() ==> r.wf(),
    {
        &self.content
    }

    /// Whether the buffer has unsaved changes it could save.
    pub fn needs_save(&self) -> (r: bool)
        ensures
            r == (self.caps().can_save && self.needs_save_flag()),
    {
        self.capabilities.can_save && self.needs_save
    }

    pub closed spec fn needs_save_flag(&self) -> bool {
        self.needs_save
    }

    pub closed spec fn caps(&self) -> BufferCapabilities {
        self.capabilities
    }

    /// Mark the buffer alive or disposed; a disposed buffer keeps its slot.
    pub fn set_alive(&mut self, alive: bool)
        ensures
            final(self).is_alive() == alive,
            final(self).lines() == old(self).lines(),
            final(self).content_wf() == old(self).content_wf(),
            final(self).history_wf() == old(self).history_wf(),
            final(self).handle_val() == old(self).handle_val(),
    {
        self.alive = alive;
    }

    /// Remove every identifier word of this buffer from the database, as
    /// disposal and reload do: a database that held them all loses exactly
    /// one occurrence of each.
    pub fn remove_all_words_from_database(&mut self, word_database: &mut WordDatabase)
        requires
            old(self).content_wf(),
        ensures
            *final(self) == *old(self),
            !old(self).caps().uses_word_database ==> *final(word_database)
                == *old(word_database),
            old(self).caps().uses_word_database
                && lines_ident_words(old(self).lines()).to_multiset().subset_of(
                old(word_database)@) ==> final(word_database)@
                == old(word_database)@.sub(lines_ident_words(old(self).lines())
                .to_multiset()),
    {
        if !self.capabilities.uses_word_database {
            return;
        }
        let n = self.content.line_count();
        let mut i: usize = 0;
        proof {
            self.content.lemma_wf_bounds();
            Seq::<Seq<u8>>::empty().to_multiset_ensures();
            assert(self.lines().subrange(0, 0) =~= Seq::<Seq<u8>>::empty());
            assert(lines_ident_words(self.lines().subrange(0, 0))
                =~= Seq::<Seq<u8>>::empty());
            assert(lines_ident_words(self.lines().subrange(0, 0)).to_multiset().len()
                == 0);
            assert(lines_ident_words(self.lines().subrange(0, 0)).to_multiset()
                =~= Multiset::empty());
            lemma_sub_empty(old(word_database)@);
        }
        while i < n
            invariant
                i <= n,
                *self == *old(self),
                old(self).content_wf(),
                n == self.content.view_lines().len(),
                lines_ident_words(self.lines().subrange(0, i as int)).to_multiset()
                    .subset_of(old(word_database)@) ==> word_database@
                    == old(word_database)@.sub(lines_ident_words(self.lines().subrange(0,
                    i as int)).to_multiset()),
            decreases n - i,
        {
            proof {
                self.content.lemma_wf_bounds();
            }
            let line = self.content.line_at(i);
            let bytes = crate::text::copy_range(line.as_str(), 0, line.len());
            let ghost db_before = word_database@;
            proof {
                assert(bytes@ =~= self.lines()[i as int]);
            }
            remove_line_words(word_database, bytes.as_slice());
            proof {
                lemma_remove_lines_step(old(word_database)@, db_before, word_database@,
                    self.lines(), 0, i as int);
            }
            i = i + 1;
        }
        proof {
            assert(self.lines().subrange(0, n as int) =~= self.lines());
        }
    }

    /// Insert `text` at `position` (saturated onto the content): updates the
    /// content, keeps the word index in step, publishes the insertion, and
    /// records the edit for undo when the buffer has history. Empty text
    /// changes nothing and covers the empty range at the saturated position.
    #[verifier::rlimit(100)]
    pub fn insert_text(
        &mut self,
        word_database: &mut WordDatabase,
        position: BufferPosition,
        text: &[u8],
        events: &mut EditorEventQueue,
    ) -> (r: BufferRange)
        requires
            old(self).content_wf(),
            old(self).history_wf(),
            old(events).wf(),
            flatten_lines(old(self).lines()).len() + text@.len() <= u32::MAX,
            old(events).write_texts().len() + text@.len() <= u32::MAX,
        ensures
            final(self).content_wf(),
            final(self).history_wf(),
            final(events).wf(),
            final(self).is_alive() == old(self).is_alive(),
            final(self).handle_val() == old(self).handle_val(),
            final(self).search_ranges_seq().len() == 0,
            text@.len() == 0 ==> final(self).lines() == old(self).lines()
                && r.from == r.to && r.from == sat_pos(old(self).lines(), position)
                && *final(events) == *old(events)
                && *final(word_database) == *old(word_database)
                && final(self).hist() == old(self).hist()
                && final(self).needs_save_flag() == old(self).needs_save_flag(),
            text@.len() > 0 ==> ({
                let p = sat_pos(old(self).lines(), position);
                &&& final(self).lines() == spec_insert_lines(old(self).lines(), p, text@)
                &&& r.from == p
                &&& r.to == spec_insert_end(old(self).lines(), p, text@)
                &&& valid_range(final(self).lines(), r)
                &&& range_text(final(self).lines(), r) == text@
                &&& final(self).needs_save_flag()
            }),
            text@.len() > 0 && old(self).caps().uses_word_database
                && old(word_database)@ == lines_ident_words(old(self).lines()).to_multiset()
                ==> final(word_database)@
                    == lines_ident_words(final(self).lines()).to_multiset(),
            // the insertion is published, carrying the interned text
            text@.len() > 0 ==> ({
                &&& final(events).write_events().len()
                    == old(events).write_events().len() + 1
                &&& final(events).write_events().drop_last()
                    == old(events).write_events()
                &&& final(events).write_texts() == old(events).write_texts() + text@
                &&& final(events).write_cursors() == old(events).write_cursors()
                &&& ({
                    let e = final(events).write_events().last();
                    &&& e is BufferInsertText
                    &&& e->BufferInsertText_handle == old(self).handle_val()
                    &&& e->BufferInsertText_range == r
                    &&& final(events).write_texts().subrange(
                        e->BufferInsertText_text.from_val(),
                        e->BufferInsertText_text.to_val()) == text@
                })
                &&& final(events).read_events() == old(events).read_events()
                &&& final(events).read_texts() == old(events).read_texts()
                &&& final(events).read_cursors() == old(events).read_cursors()
            }),
            // the edit is recorded for undo exactly when the buffer has history
            text@.len() > 0 && old(self).caps().has_history ==> ({
                let ev = EditView { kind: EditKind::Insert, range: r, text: text@ };
                final(self).hist().open_edits()
                    == if old(self).hist().applied_count()
                        < old(self).hist().group_count() {
                        seq![ev]
                    } else {
                        old(self).hist().open_edits().push(ev)
                    }
            }),
            text@.len() > 0 && !old(self).caps().has_history ==> final(self).hist()
                == old(self).hist(),
    {
        self.search_ranges.clear();
        let spos = self.content.saturate_position(position);
        proof {
            assert(spos == sat_pos(self.content.view_lines(), position));
        }
        if text.len() == 0 {
            return BufferRange { from: spos, to: spos };
        }
        self.needs_save = true;
        proof {
            self.content.lemma_wf_bounds();
        }

        let ghost before = self.content.view_lines();
        let li = spos.line_index as usize;

        if self.capabilities.uses_word_database {
            let line = self.content.line_at(li);
            let bytes = crate::text::copy_range(line.as_str(), 0, line.len());
            proof {
                assert(bytes@ =~= before[li as int]);
            }
            remove_line_words(word_database, bytes.as_slice());
            proof {
                assert(ident_texts(before[li as int]).to_multiset().subset_of(
                    old(word_database)@) ==> word_database@
                    == old(word_database)@.sub(ident_texts(before[li as int])
                    .to_multiset()));
            }
        }
        let ghost db_removed = word_database@;

        let range = self.content.insert_text(spos, text);

        if self.capabilities.uses_word_database {
            proof {
                self.content.lemma_wf_bounds();
                crate::text::lemma_split_lines_shape(text@);
                assert(li <= range.to.line_index as usize);
            }
            add_window_words(word_database, &self.content, li, range.to.line_index);
        }

        checked_enqueue_insert(events, self.handle, range, text);

        if self.capabilities.has_history {
            let owned = crate::text::copy_range(text, 0, text.len());
            proof {
                assert(owned@ =~= text@);
                assert((Edit { kind: EditKind::Insert, range, text: owned })@
                    == EditView { kind: EditKind::Insert, range, text: text@ });
            }
            self.history.add_edit(Edit { kind: EditKind::Insert, range, text: owned });
        }

        proof {
            if self.capabilities.uses_word_database
                && old(word_database)@ == lines_ident_words(before).to_multiset() {
                let lv = self.content.view_lines();
                let np = crate::text::split_lines(text@).len() as int;
                let replaced = lv.subrange(li as int, li + np);
                crate::text::lemma_split_lines_shape(text@);
                crate::text::lemma_flatten_len(before);
                assert(li + np - 1 <= u32::MAX);
                assert(range.to.line_index as int == li + np - 1);
                assert(word_database@ == db_removed.add(lines_ident_words(lv.subrange(
                    li as int, range.to.line_index as int + 1)).to_multiset()));
                assert(lv =~= before.take(li as int) + replaced + before.skip(li + 1));
                lemma_word_index_update(before, li as int, li + 1, replaced, lv,
                    old(word_database)@);
                assert(before.subrange(li as int, li + 1) =~= seq![before[li as int]]);
                lemma_words_singleton(before[li as int]);
                assert(lines_ident_words(seq![before[li as int]]).to_multiset()
                    .subset_of(old(word_database)@));
                assert(db_removed == old(word_database)@.sub(ident_texts(
                    before[li as int]).to_multiset()));
                assert(lv.subrange(li as int, (li + np) as int) == replaced);
                assert(word_database@ == db_removed.add(lines_ident_words(replaced)
                    .to_multiset()));
                assert(word_database@ == lines_ident_words(lv).to_multiset());
            }
        }
        range
    }

    /// Delete the text covered by `range` (both ends saturated): updates the
    /// content, keeps the word index in step, publishes the deletion, and
    /// records the removed text for undo when the buffer has history. An
    /// empty range changes nothing.
    #[verifier::rlimit(100)]
    pub fn delete_range(
        &mut self,
        word_database: &mut WordDatabase,
        range: BufferRange,
        events: &mut EditorEventQueue,
    )
        requires
            old(self).content_wf(),
            old(self).history_wf(),
            old(events).wf(),
            range.wf(),
        ensures
            final(self).content_wf(),
            final(self).history_wf(),
            final(events).wf(),
            final(self).is_alive() == old(self).is_alive(),
            final(self).handle_val() == old(self).handle_val(),
            final(self).search_ranges_seq().len() == 0,
            ({
                let r2 = ordered_range(sat_pos(old(self).lines(), range.from),
                    sat_pos(old(self).lines(), range.to));
                if r2.from == r2.to {
                    final(self).lines() == old(self).lines()
                } else {
                    final(self).lines() == spec_delete_lines(old(self).lines(), r2)
                }
            }),
            ({
                let r2 = ordered_range(sat_pos(old(self).lines(), range.from),
                    sat_pos(old(self).lines(), range.to));
                r2.from != r2.to && old(self).caps().uses_word_database
                    && old(word_database)@
                        == lines_ident_words(old(self).lines()).to_multiset()
                    ==> final(word_database)@
                        == lines_ident_words(final(self).lines()).to_multiset()
            }),
            // an effective delete publishes exactly one deletion event; an
            // empty one publishes nothing and changes nothing else
            ({
                let r2 = ordered_range(sat_pos(old(self).lines(), range.from),
                    sat_pos(old(self).lines(), range.to));
                if r2.from == r2.to {
                    &&& *final(events) == *old(events)
                    &&& *final(word_database) == *old(word_database)
                    &&& final(self).hist() == old(self).hist()
                    &&& final(self).needs_save_flag() == old(self).needs_save_flag()
                } else {
                    &&& final(events).write_events() == old(events).write_events()
                        .push(EditorEvent::BufferDeleteText {
                            handle: old(self).handle_val(),
                            range: r2,
                        })
                    &&& final(events).write_texts() == old(events).write_texts()
                    &&& final(events).write_cursors() == old(events).write_cursors()
                    &&& final(events).read_events() == old(events).read_events()
                    &&& final(events).read_texts() == old(events).read_texts()
                    &&& final(events).read_cursors() == old(events).read_cursors()
                    &&& final(self).needs_save_flag()
                }
            }),
            // the removed text is recorded for undo exactly when the buffer
            // has history
            ({
                let r2 = ordered_range(sat_pos(old(self).lines(), range.from),
                    sat_pos(old(self).lines(), range.to));
                let dv = EditView {
                    kind: EditKind::Delete,
                    range: r2,
                    text: range_text(old(self).lines(), r2),
                };
                &&& r2.from != r2.to && old(self).caps().has_history
                    ==> final(self).hist().open_edits()
                        == if old(self).hist().applied_count()
                            < old(self).hist().group_count() {
                            seq![dv]
                        } else {
                            old(self).hist().open_edits().push(dv)
                        }
                &&& r2.from != r2.to && !old(self).caps().has_history
                    ==> final(self).hist() == old(self).hist()
            }),
    {
        self.search_ranges.clear();
        let f = self.content.saturate_position(range.from);
        let t = self.content.saturate_position(range.to);
        proof {
            assert(f == sat_pos(self.content.view_lines(), range.from));
            assert(t == sat_pos(self.content.view_lines(), range.to));
            crate::position::lemma_pos_order_total(f, t);
        }
        let ordered = BufferRange::between(f, t);
        if ordered.from.line_index == ordered.to.line_index
            && ordered.from.column_byte_index == ordered.to.column_byte_index {
            return;
        }
        let range = ordered;
        self.needs_save = true;
        proof {
            self.content.lemma_wf_bounds();
        }

        let ghost before = self.content.view_lines();
        let fl = range.from.line_index as usize;
        let tl = range.to.line_index as usize;

        if self.capabilities.uses_word_database {
            let tl64 = range.to.line_index as u64;
            let mut k: u64 = fl as u64;
            let ghost self_snap = *self;
            proof {
                Seq::<Seq<u8>>::empty().to_multiset_ensures();
                assert(before.subrange(fl as int, fl as int) =~= Seq::<Seq<u8>>::empty());
                assert(lines_ident_words(before.subrange(fl as int, fl as int))
                    =~= Seq::<Seq<u8>>::empty());
                assert(lines_ident_words(before.subrange(fl as int, fl as int))
                    .to_multiset().len() == 0);
            }
            while k <= tl64
                invariant
                    fl <= k <= tl64 + 1,
                    tl64 < before.len(),
                    tl64 <= u32::MAX,
                    *self == self_snap,
                    self.content.wf(),
                    self.content.view_lines() == before,
                    lines_ident_words(before.subrange(fl as int, k as int)).to_multiset()
                        .subset_of(old(word_database)@) ==> word_database@
                        == old(word_database)@.sub(lines_ident_words(before.subrange(
                        fl as int, k as int)).to_multiset()),
                decreases tl64 + 1 - k,
            {
                proof {
                    self.content.lemma_wf_bounds();
                }
                let line = self.content.line_at(k as usize);
                let bytes = crate::text::copy_range(line.as_str(), 0, line.len());
                let ghost db_before = word_database@;
                proof {
                    assert(bytes@ =~= before[k as int]);
                }
                remove_line_words(word_database, bytes.as_slice());
                proof {
                    lemma_remove_lines_step(old(word_database)@, db_before,
                        word_database@, before, fl as int, k as int);
                }
                k = k + 1;
            }
        }

        let mut deleted: Vec<u8> = Vec::new();
        self.content.append_range_text_to_string(range, &mut deleted);
        proof {
            assert(deleted@ =~= range_text(before, range));
        }

        events.enqueue(EditorEvent::BufferDeleteText { handle: self.handle, range });

        if self.capabilities.has_history {
            self.history.add_edit(Edit { kind: EditKind::Delete, range, text: deleted });
        }

        self.content.delete_range(range);

        let ghost db_removed = word_database@;
        if self.capabilities.uses_word_database {
            proof {
                self.content.lemma_wf_bounds();
            }
            let line = self.content.line_at(fl);
            let bytes = crate::text::copy_range(line.as_str(), 0, line.len());
            proof {
                assert(bytes@ =~= self.content.view_lines()[fl as int]);
            }
            add_line_words(word_database, bytes.as_slice());
        }

        proof {
            if self.capabilities.uses_word_database
                && old(word_database)@ == lines_ident_words(before).to_multiset() {
                let lv = self.content.view_lines();
                let replaced = seq![lv[fl as int]];
                assert(lv =~= before.take(fl as int) + replaced + before.skip(tl + 1));
                lemma_word_index_update(before, fl as int, tl + 1, replaced, lv,
                    old(word_database)@);
                lemma_words_singleton(lv[fl as int]);
                assert(before.subrange(fl as int, tl + 1).to_multiset()
                    == before.subrange(fl as int, tl + 1).to_multiset());
                assert(db_removed == old(word_database)@.sub(lines_ident_words(
                    before.subrange(fl as int, tl + 1)).to_multiset()));
                assert(word_database@ == db_removed.add(ident_texts(lv[fl as int])
                    .to_multiset()));
                assert(word_database@ == lines_ident_words(lv).to_multiset());
            }
        }
    }

    /// Close the current undo group.
    pub fn commit_edits(&mut self)
        requires
            old(self).history_wf(),
        ensures
            final(self).history_wf(),
            final(self).lines() == old(self).lines(),
            final(self).content_wf() == old(self).content_wf(),
            final(self).hist().open_edits().len() == 0,
            old(self).hist().open_edits().len() == 0 ==> final(self).hist()
                == old(self).hist(),
            old(self).hist().open_edits().len() > 0 ==> final(self).hist().group_count()
                == old(self).hist().group_count() + 1
                && final(self).hist().applied_count() == final(self).hist().group_count()
                && final(self).hist().group_edits(old(self).hist().group_count())
                    == old(self).hist().open_edits()
                && (forall|g: int| 0 <= g < old(self).hist().group_count()
                    ==> final(self).hist().group_edits(g)
                        == old(self).hist().group_edits(g)),
    {
        self.history.commit_edits();
    }

    /// Undo the latest group: exactly that group's edits, inverted and in
    /// reverse order, are returned and applied to the content; the undo
    /// pointer steps back past the group. An open group is committed first,
    /// and nothing is returned only when no applied group is left. Each
    /// returned edit that fits the content it meets is applied exactly as
    /// its kind and range say; when the whole list fits (as edits produced
    /// by this buffer's own history do), the content becomes the list's
    /// replay.
    pub fn undo(
        &mut self,
        word_database: &mut WordDatabase,
        events: &mut EditorEventQueue,
    ) -> (r: Vec<Edit>)
        requires
            old(self).content_wf(),
            old(self).history_wf(),
            old(events).wf(),
        ensures
            final(self).content_wf(),
            final(self).history_wf(),
            final(events).wf(),
            edits_apply_views(old(self).lines(), r@) ==> final(self).lines()
                == apply_edits(old(self).lines(), views_of(r@)),
            (r@.len() == 0) <==> (old(self).hist().open_edits().len() == 0
                && old(self).hist().applied_count() == 0),
            r@.len() == 0 ==> final(self).lines() == old(self).lines(),
            old(self).hist().open_edits().len() == 0
                && old(self).hist().applied_count() > 0 ==> ({
                &&& final(self).hist().applied_count()
                    == old(self).hist().applied_count() - 1
                &&& final(self).hist().group_count() == old(self).hist().group_count()
                &&& r@.map_values(|e: Edit| e@) == crate::history::invert_edits(
                    old(self).hist().group_edits(old(self).hist().applied_count() - 1))
            }),
            old(self).hist().open_edits().len() > 0 ==> ({
                &&& final(self).hist().group_count()
                    == old(self).hist().group_count() + 1
                &&& final(self).hist().applied_count() == old(self).hist().group_count()
                &&& r@.map_values(|e: Edit| e@) == crate::history::invert_edits(
                    old(self).hist().open_edits())
            }),
    {
        let edits = self.history.undo_edits();
        self.apply_edit_list(word_database, events, &edits);
        edits
    }

    /// Redo the next group forward: exactly that group's edits, in order,
    /// are returned and applied; the undo pointer steps forward past the
    /// group. Nothing is returned when every group is applied or a new open
    /// group had to be committed first.
    pub fn redo(
        &mut self,
        word_database: &mut WordDatabase,
        events: &mut EditorEventQueue,
    ) -> (r: Vec<Edit>)
        requires
            old(self).content_wf(),
            old(self).history_wf(),
            old(events).wf(),
        ensures
            final(self).content_wf(),
            final(self).history_wf(),
            final(events).wf(),
            edits_apply_views(old(self).lines(), r@) ==> final(self).lines()
                == apply_edits(old(self).lines(), views_of(r@)),
            r@.len() == 0 ==> final(self).lines() == old(self).lines(),
            old(self).hist().open_edits().len() == 0 ==> ({
                &&& ((r@.len() == 0) <==> old(self).hist().applied_count()
                    == old(self).hist().group_count())
                &&& old(self).hist().applied_count() < old(self).hist().group_count()
                    ==> final(self).hist().applied_count()
                        == old(self).hist().applied_count() + 1
                        && r@.map_values(|e: Edit| e@)
                            == old(self).hist().group_edits(
                            old(self).hist().applied_count())
            }),
            old(self).hist().open_edits().len() > 0 ==> r@.len() == 0,
    {
        let edits = self.history.redo_edits();
        self.apply_edit_list(word_database, events, &edits);
        edits
    }

    /// Apply a list of history edits to the content in order, keeping the
    /// word index in step and publishing each change. An edit that does not
    /// fit the current content is skipped.
    fn apply_edit_list(
        &mut self,
        word_database: &mut WordDatabase,
        events: &mut EditorEventQueue,
        edits: &Vec<Edit>,
    )
        requires
            old(self).content_wf(),
            old(self).history_wf(),
            old(events).wf(),
        ensures
            final(self).content_wf(),
            final(self).history_wf(),
            final(events).wf(),
            final(self).hist() == old(self).hist(),
            edits@.len() == 0 ==> final(self).lines() == old(self).lines(),
            edits_apply_views(old(self).lines(), edits@) ==> final(self).lines()
                == apply_edits(old(self).lines(), views_of(edits@)),
    {
        let mut i: usize = 0;
        let n = edits.len();
        proof {
            assert(views_of(edits@.take(0)) =~= Seq::<EditView>::empty());
        }
        while i < n
            invariant
                i <= n,
                n == edits@.len(),
                self.content_wf(),
                self.history_wf(),
                events.wf(),
                self.hist() == old(self).hist(),
                edits_apply_views(old(self).lines(), edits@.take(i as int))
                    ==> self.lines() == apply_edits(old(self).lines(),
                    views_of(edits@.take(i as int))),
            decreases n - i,
        {
            let e = &edits[i];
            let ghost lines_before = self.lines();
            let applied = self.apply_one_edit(word_database, events, e);
            proof {
                assert(edits@.take(i + 1 as int) =~= edits@.take(i as int).push(edits@[
                    i as int]));
                lemma_views_snoc(edits@.take(i as int), edits@[i as int]);
                if edits_apply_views(old(self).lines(), edits@.take(i + 1 as int)) {
                    lemma_edits_apply_snoc(old(self).lines(),
                        views_of(edits@.take(i as int)), edits@[i as int]@);
                    assert(edits_apply_views(old(self).lines(), edits@.take(i as int)));
                    assert(lines_before == apply_edits(old(self).lines(),
                        views_of(edits@.take(i as int))));
                    assert(edit_applies(lines_before, edits@[i as int]@));
                    assert(applied);
                    assert(self.lines() == crate::history::apply_edit(lines_before,
                        edits@[i as int]@));
                }
            }
            i = i + 1;
        }
        proof {
            assert(edits@.take(n as int) =~= edits@);
        }
    }

    /// Apply one history edit when it fits the current content.
    fn apply_one_edit(
        &mut self,
        word_database: &mut WordDatabase,
        events: &mut EditorEventQueue,
        e: &Edit,
    ) -> (applied: bool)
        requires
            old(self).content_wf(),
            old(self).history_wf(),
            old(events).wf(),
        ensures
            final(self).content_wf(),
            final(self).history_wf(),
            final(events).wf(),
            final(self).hist() == old(self).hist(),
            edit_applies(old(self).lines(), e@) ==> applied,
            applied && edit_applies(old(self).lines(), e@) ==> final(self).lines()
                == crate::history::apply_edit(old(self).lines(), e@),
            !applied ==> final(self).lines() == old(self).lines(),
    {
        proof {
            self.content.lemma_wf_bounds();
        }
        match e.kind {
            EditKind::Insert => {
                let p = e.range.from;
                let fits_pos = (p.line_index as usize) < self.content.line_count()
                    && p.column_byte_index as usize
                        <= self.content.line_at(p.line_index as usize).len();
                if !fits_pos {
                    return false;
                }
                let fits_len = self.content.flat_len_fits(e.text.len());
                if !fits_len {
                    return false;
                }
                if self.capabilities.uses_word_database {
                    let line = self.content.line_at(p.line_index as usize);
                    let bytes = crate::text::copy_range(line.as_str(), 0, line.len());
                    remove_line_words(word_database, bytes.as_slice());
                }
                let range = self.content.insert_text(p, e.text.as_slice());
                if self.capabilities.uses_word_database {
                    index_line_window(word_database, &self.content,
                        range.from.line_index, range.to.line_index);
                }
                checked_enqueue_insert(events, self.handle, range, e.text.as_slice());
                self.needs_save = true;
                self.search_ranges.clear();
                true
            }
            EditKind::Delete => {
                let r = e.range;
                let fits = (r.from.line_index as usize) < self.content.line_count()
                    && (r.to.line_index as usize) < self.content.line_count()
                    && r.from.column_byte_index as usize
                        <= self.content.line_at(r.from.line_index as usize).len()
                    && r.to.column_byte_index as usize
                        <= self.content.line_at(r.to.line_index as usize).len()
                    && r.from.le(&r.to);
                if !fits {
                    return false;
                }
                if self.capabilities.uses_word_database {
                    unindex_line_window(word_database, &self.content,
                        r.from.line_index, r.to.line_index);
                }
                self.content.delete_range(r);
                if self.capabilities.uses_word_database {
                    index_line_window(word_database, &self.content,
                        r.from.line_index, r.from.line_index);
                }
                events.enqueue(EditorEvent::BufferDeleteText {
                    handle: self.handle,
                    range: r,
                });
                self.needs_save = true;
                self.search_ranges.clear();
                true
            }
        }
    }

    /// Recompute the cached search ranges for `pattern`.
    pub fn set_search(&mut self, pattern: &crate::pattern::Pattern)
        requires
            old(self).content_wf(),
        ensures
            final(self).content_wf(),
            final(self).history_wf() == old(self).history_wf(),
            final(self).lines() == old(self).lines(),
    {
        let mut ranges: Vec<BufferRange> = Vec::new();
        self.content.find_search_ranges(pattern, &mut ranges);
        self.search_ranges = ranges;
    }

    /// The cached search ranges of the latest search.
    pub fn search_ranges(&self) -> (r: &Vec<BufferRange>)
        ensures
            r@ == self.search_ranges_seq(),
    {
        &self.search_ranges
    }

    /// Replace the cached search ranges.
    pub fn set_search_ranges(&mut self, ranges: Vec<BufferRange>)
        ensures
            final(self).search_ranges_seq() == ranges@,
            final(self).lines() == old(self).lines(),
            final(self).content_wf() == old(self).content_wf(),
            final(self).history_wf() == old(self).history_wf(),
    {
        self.search_ranges = ranges;
    }

    /// Serialize the content for saving: each line followed by a newline.
    /// A new path replaces the buffer's path and makes it saveable.
    pub fn save_to_bytes(&mut self, new_path: Option<Vec<u8>>, out: &mut Vec<u8>,
        events: &mut EditorEventQueue) -> (saved: bool)
        requires
            old(self).content_wf(),
            old(events).wf(),
        ensures
            final(self).content_wf(),
            final(self).lines() == old(self).lines(),
            final(self).history_wf() == old(self).history_wf(),
            final(events).wf(),
            saved <==> (old(self).caps().can_save || new_path is Some),
            saved ==> final(out)@ == old(out)@ + flatten_lines(old(self).lines())
                + seq![nl()],
            !saved ==> final(out)@ == old(out)@ && *final(events) == *old(events)
                && final(self).needs_save_flag() == old(self).needs_save_flag(),
            // a given path replaces the buffer's path and makes it saveable
            new_path matches Some(p) ==> final(self).path_view() == p@
                && final(self).caps().can_save,
            new_path is None ==> final(self).path_view() == old(self).path_view()
                && final(self).caps() == old(self).caps(),
            // a save clears the unsaved-changes flag and publishes itself
            saved ==> final(self).needs_save_flag() == false
                && final(events).write_events() == old(events).write_events()
                    .push(EditorEvent::BufferSave {
                        handle: old(self).handle_val(),
                        new_path: new_path is Some,
                    })
                && final(events).write_texts() == old(events).write_texts()
                && final(events).write_cursors() == old(events).write_cursors()
                && final(events).read_events() == old(events).read_events()
                && final(events).read_texts() == old(events).read_texts()
                && final(events).read_cursors() == old(events).read_cursors(),
    {
        let new_path_given = match new_path {
            Some(path) => {
                self.capabilities.can_save = true;
                self.path = path;
                true
            }
            None => false,
        };
        if !self.capabilities.can_save {
            return false;
        }
        self.content.write(out);
        self.needs_save = false;
        events.enqueue(EditorEvent::BufferSave {
            handle: self.handle,
            new_path: new_path_given,
        });
        true
    }

    /// Replace the content with bytes read from storage: clears history and
    /// search, publishes that the buffer was opened, and re-indexes words.
    pub fn reload_from_bytes(&mut self, word_database: &mut WordDatabase, bytes: &[u8],
        events: &mut EditorEventQueue)
        requires
            old(self).content_wf(),
            old(self).history_wf(),
            old(events).wf(),
            bytes@.len() <= u32::MAX,
        ensures
            final(self).content_wf(),
            final(self).history_wf(),
            final(events).wf(),
            final(self).lines() == crate::content::spec_read_lines(bytes@),
    {
        self.history.clear();
        self.search_ranges.clear();
        self.needs_save = false;
        self.remove_all_words_from_database(word_database);
        self.content.clear();
        events.enqueue(EditorEvent::BufferOpen { handle: self.handle });
        self.content.read(bytes);
        if self.capabilities.uses_word_database {
            let n = self.content.line_count();
            let mut i: usize = 0;
            proof {
                self.content.lemma_wf_bounds();
            }
            while i < n
                invariant
                    n == self.content.view_lines().len(),
                    self.content.wf(),
                    self.content.view_lines() == crate::content::spec_read_lines(bytes@),
                    self.history.wf(),
                decreases n - i,
            {
                proof {
                    self.content.lemma_wf_bounds();
                }
                let line = self.content.line_at(i);
                let line_bytes = crate::text::copy_range(line.as_str(), 0, line.len());
                add_line_words(word_database, line_bytes.as_slice());
                i = i + 1;
            }
        }
    }
}

/// A saturated position: the line clamped onto the content, the column onto
/// the line.
pub open spec fn sat_pos(lines: Seq<Seq<u8>>, p: BufferPosition) -> BufferPosition {
    let li = if (p.line_index as int) < lines.len() {
        p.line_index as int
    } else {
        lines.len() - 1
    };
    let col = if p.column_byte_index <= lines[li].len() {
        p.column_byte_index as int
    } else {
        lines[li].len() as int
    };
    BufferPosition { line_index: li as u32, column_byte_index: col as u32 }
}

/// The views of a list of owned edits.
pub open spec fn views_of(edits: Seq<Edit>) -> Seq<EditView> {
    edits.map_values(|e: Edit| e@)
}

/// The views of a list of owned edits fit the lines in sequence.
pub open spec fn edits_apply_views(lines: Seq<Seq<u8>>, edits: Seq<Edit>) -> bool {
    crate::history::edits_apply(lines, views_of(edits))
}

proof fn lemma_views_snoc(edits: Seq<Edit>, e: Edit)
    ensures
        views_of(edits.push(e)) == views_of(edits).push(e@),
{
    assert(views_of(edits.push(e)) =~= views_of(edits).push(e@));
}

proof fn lemma_edits_apply_snoc(lines: Seq<Seq<u8>>, es: Seq<EditView>, e: EditView)
    ensures
        apply_edits(lines, es.push(e)) == crate::history::apply_edit(apply_edits(lines, es),
            e),
        crate::history::edits_apply(lines, es.push(e)) <==> (crate::history::edits_apply(
            lines, es) && edit_applies(apply_edits(lines, es), e)),
    decreases es.len(),
{
    if es.len() == 0 {
        reveal_with_fuel(apply_edits, 3);
        reveal_with_fuel(crate::history::edits_apply, 3);
        assert(es.push(e)[0] == e);
        assert(es.push(e).drop_first() =~= Seq::<EditView>::empty());
        assert(apply_edits(lines, es.push(e)) == crate::history::apply_edit(lines, e));
        assert(apply_edits(lines, es) == lines);
    } else {
        assert(es.push(e)[0] == es[0]);
        assert(es.push(e).drop_first() =~= es.drop_first().push(e));
        lemma_edits_apply_snoc(crate::history::apply_edit(lines, es[0]), es.drop_first(),
            e);
    }
}

/// Extending the added-lines window by one line adds that line's words.
proof fn lemma_words_snoc(lines: Seq<Seq<u8>>, from: int, k: int)
    requires
        0 <= from <= k < lines.len(),
    ensures
        lines_ident_words(lines.subrange(from, k + 1)).to_multiset()
            == lines_ident_words(lines.subrange(from, k)).to_multiset().add(
            ident_texts(lines[k]).to_multiset()),
{
    assert(lines.subrange(from, k + 1) =~= lines.subrange(from, k) + seq![lines[k]]);
    lemma_words_concat(lines.subrange(from, k), seq![lines[k]]);
    lemma_words_singleton(lines[k]);
}

/// One step of removing a window of lines' words.
proof fn lemma_remove_lines_step(
    start: Multiset<Seq<u8>>,
    before: Multiset<Seq<u8>>,
    after: Multiset<Seq<u8>>,
    lines: Seq<Seq<u8>>,
    from: int,
    k: int,
)
    requires
        0 <= from <= k < lines.len(),
        lines_ident_words(lines.subrange(from, k)).to_multiset().subset_of(start)
            ==> before == start.sub(lines_ident_words(lines.subrange(from, k))
            .to_multiset()),
        ident_texts(lines[k]).to_multiset().subset_of(before) ==> after
            == before.sub(ident_texts(lines[k]).to_multiset()),
    ensures
        lines_ident_words(lines.subrange(from, k + 1)).to_multiset().subset_of(start)
            ==> after == start.sub(lines_ident_words(lines.subrange(from, k + 1))
            .to_multiset()),
{
    lemma_words_snoc(lines, from, k);
    let wk = lines_ident_words(lines.subrange(from, k)).to_multiset();
    let wl = ident_texts(lines[k]).to_multiset();
    if lines_ident_words(lines.subrange(from, k + 1)).to_multiset().subset_of(start) {
        assert(wk.add(wl).subset_of(start));
        assert(wk.subset_of(start));
        assert(before == start.sub(wk));
        assert(wl.subset_of(before));
        assert(after == before.sub(wl));
        assert(start.sub(wk).sub(wl) =~= start.sub(wk.add(wl)));
    }
}

/// The two positions as a range, endpoints in order.
pub open spec fn ordered_range(a: BufferPosition, b: BufferPosition) -> BufferRange {
    if crate::position::pos_le(a, b) {
        BufferRange { from: a, to: b }
    } else {
        BufferRange { from: b, to: a }
    }
}

/// Add the identifier words of lines `from..=to_line` to the database: the
/// effect is exactly adding those lines' word multiset.
fn add_window_words(db: &mut WordDatabase, content: &BufferContent, from: usize,
    to_line: u32)
    requires
        content.wf(),
        (to_line as int) < content.view_lines().len(),
        from <= to_line as usize,
    ensures
        final(db)@ == old(db)@.add(lines_ident_words(content.view_lines().subrange(
            from as int, to_line as int + 1)).to_multiset()),
{
    let to64 = to_line as u64;
    let mut k: u64 = from as u64;
    proof {
        content.lemma_wf_bounds();
        Seq::<Seq<u8>>::empty().to_multiset_ensures();
        assert(content.view_lines().subrange(from as int, from as int)
            =~= Seq::<Seq<u8>>::empty());
        assert(lines_ident_words(content.view_lines().subrange(from as int, from as int))
            =~= Seq::<Seq<u8>>::empty());
        assert(lines_ident_words(content.view_lines().subrange(from as int, from as int))
            .to_multiset().len() == 0);
        assert(old(db)@.add(lines_ident_words(content.view_lines().subrange(from as int,
            from as int)).to_multiset()) =~= old(db)@);
    }
    while k <= to64
        invariant
            from <= k <= to64 + 1,
            to64 < content.view_lines().len(),
            to64 <= u32::MAX,
            content.wf(),
            db@ == old(db)@.add(lines_ident_words(content.view_lines().subrange(
                from as int, k as int)).to_multiset()),
        decreases to64 + 1 - k,
    {
        proof {
            content.lemma_wf_bounds();
        }
        let line = content.line_at(k as usize);
        let bytes = crate::text::copy_range(line.as_str(), 0, line.len());
        let ghost db_before = db@;
        proof {
            assert(bytes@ =~= content.view_lines()[k as int]);
        }
        add_line_words(db, bytes.as_slice());
        proof {
            let lv = content.view_lines();
            lemma_words_snoc(lv, from as int, k as int);
            assert(db_before.add(ident_texts(lv[k as int]).to_multiset())
                =~= old(db)@.add(lines_ident_words(lv.subrange(from as int,
                    k + 1 as int)).to_multiset()));
        }
        k = k + 1;
    }
}

/// Add the identifier words of lines `from..=to` to the database.
fn index_line_window(db: &mut WordDatabase, content: &BufferContent, from: u32, to: u32)
    requires
        content.wf(),
        to < content.view_lines().len(),
{
    let mut k: u64 = from as u64;
    let to64 = to as u64;
    while k <= to64
        invariant
            content.wf(),
            to64 < content.view_lines().len(),
            to64 <= u32::MAX,
        decreases to64 + 1 - k,
    {
        proof {
            content.lemma_wf_bounds();
        }
        let line = content.line_at(k as usize);
        let bytes = crate::text::copy_range(line.as_str(), 0, line.len());
        add_line_words(db, bytes.as_slice());
        k = k + 1;
    }
}

/// Remove the identifier words of lines `from..=to` from the database.
fn unindex_line_window(db: &mut WordDatabase, content: &BufferContent, from: u32, to: u32)
    requires
        content.wf(),
        to < content.view_lines().len(),
{
    let mut k: u64 = from as u64;
    let to64 = to as u64;
    while k <= to64
        invariant
            content.wf(),
            to64 < content.view_lines().len(),
            to64 <= u32::MAX,
        decreases to64 + 1 - k,
    {
        proof {
            content.lemma_wf_bounds();
        }
        let line = content.line_at(k as usize);
        let bytes = crate::text::copy_range(line.as_str(), 0, line.len());
        remove_line_words(db, bytes.as_slice());
        k = k + 1;
    }
}

/// Publish a buffer insertion when the event arena has room for the text; an
/// insertion too large for the arena is dropped and the queue is unchanged.
fn checked_enqueue_insert(events: &mut EditorEventQueue, handle: BufferHandle,
    range: BufferRange, text: &[u8])
    requires
        old(events).wf(),
    ensures
        final(events).wf(),
        old(events).write_texts().len() + text@.len() > u32::MAX ==> *final(events)
            == *old(events),
        old(events).write_texts().len() + text@.len() <= u32::MAX ==> ({
            &&& final(events).write_events().len() == old(events).write_events().len() + 1
            &&& final(events).write_events().drop_last() == old(events).write_events()
            &&& final(events).write_texts() == old(events).write_texts() + text@
            &&& final(events).write_cursors() == old(events).write_cursors()
            &&& ({
                let e = final(events).write_events().last();
                &&& e is BufferInsertText
                &&& e->BufferInsertText_handle == handle
                &&& e->BufferInsertText_range == range
                &&& final(events).write_texts().subrange(
                    e->BufferInsertText_text.from_val(),
                    e->BufferInsertText_text.to_val()) == text@
            })
            &&& final(events).read_events() == old(events).read_events()
            &&& final(events).read_texts() == old(events).read_texts()
            &&& final(events).read_cursors() == old(events).read_cursors()
        }),
{
    if text.len() <= 0xffffffffusize && events.write_texts_len() <= 0xffffffffusize
        - text.len() {
        events.enqueue_buffer_insert(handle, range, text);
    }
}

} // verus!
