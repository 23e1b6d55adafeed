//! Client sessions on the server side: a small stable handle per connected
//! client, its viewport and scroll state, and the manager that tracks which
//! client has focus.

use vstd::prelude::*;

use crate::events::BufferViewHandle;
use crate::position::BufferPosition;

verus! {

/// Stable handle of a client: a small index into the client slot table.
#[derive(Debug, Clone, Copy, PartialEq, Eq, Structural)]
pub struct ClientHandle(u8);

impl ClientHandle {
    pub closed spec fn spec_index(self) -> int {
        self.0 as int
    }

    pub fn into_index(self) -> (r: usize)
        ensures
            r == self.spec_index(),
    {
        let ClientHandle(v) = self;
        v as usize
    }

    /// A handle for a slot index, when it fits the handle's width.
    pub fn from_index(index: usize) -> (r: Option<ClientHandle>)
        ensures
            r is Some <==> index <= u8::MAX,
            r is Some ==> r->Some_0.spec_index() == index,
    {
        if index <= 255 {
            Some(ClientHandle(index as u8))
        } else {
            None
        }
    }
}

/// The parse failure of a client handle written as text.
#[derive(Debug, Clone, Copy, PartialEq, Eq, Structural)]
pub struct ClientHandleFromStrError;

impl ClientHandle {
    /// Parse a handle from decimal ascii digits.
    pub fn from_str(text: &[u8]) -> (r: Result<ClientHandle, ClientHandleFromStrError>)
        ensures
            r is Ok ==> text@.len() >= 1 && r->Ok_0.spec_index() <= u8::MAX,
    {
        if text.len() == 0 || text.len() > 3 {
            return Err(ClientHandleFromStrError);
        }
        let mut value: u32 = 0;
        let mut i: usize = 0;
        while i < text.len()
            invariant
                i <= text@.len(),
                text@.len() <= 3,
                i == 0 ==> value == 0,
                i == 1 ==> value <= 9,
                i == 2 ==> value <= 99,
                i == 3 ==> value <= 999,
            decreases text@.len() - i,
        {
            let b = text[i];
            if b < 0x30u8 || b > 0x39u8 {
                return Err(ClientHandleFromStrError);
            }
            value = value * 10 + (b - 0x30u8) as u32;
            i = i + 1;
        }
        if value <= 255 {
            Ok(ClientHandle(value as u8))
        } else {
            Err(ClientHandleFromStrError)
        }
    }
}

/// What a client's viewport shows: a buffer view, or a custom renderer
/// identified by a small id.
#[derive(Debug, Clone, Copy, PartialEq, Eq, Structural)]
pub enum ClientView {
    Buffer(BufferViewHandle),
    Custom(u32),
}

/// One client's session state: viewport size, scroll, and current view.
pub struct Client {
    pub active: bool,
    pub handle: ClientHandle,
    pub suspended: bool,
    pub viewport_width: u16,
    pub viewport_height: u16,
    pub scroll_x: u32,
    pub scroll_y: u32,
    pub height: u16,
    pub view: ClientView,
}

impl Client {
    pub open spec fn is_active(&self) -> bool {
        self.active
    }

    pub open spec fn view_val(&self) -> ClientView {
        self.view
    }

    pub open spec fn handle_val(&self) -> ClientHandle {
        self.handle
    }

    fn vacant() -> (r: Self)
        ensures
            !r.is_active(),
            r.view_val() == ClientView::Custom(0),
    {
        Self {
            active: false,
            handle: ClientHandle(0),
            suspended: false,
            viewport_width: 0,
            viewport_height: 0,
            scroll_x: 0,
            scroll_y: 0,
            height: 0,
            view: ClientView::Custom(0),
        }
    }

    pub fn handle(&self) -> (r: ClientHandle)
        ensures
            r == self.handle_val(),
    {
        self.handle
    }

    pub fn view(&self) -> (r: ClientView)
        ensures
            r == self.view_val(),
    {
        self.view
    }

    /// The buffer view this client shows, when it shows one.
    pub fn buffer_view_handle(&self) -> (r: Option<BufferViewHandle>)
        ensures
            self.view_val() matches ClientView::Buffer(h) ==> r == Some(h),
            self.view_val() is Custom ==> r is None,
    {
        match self.view {
            ClientView::Buffer(handle) => Some(handle),
            ClientView::Custom(_) => None,
        }
    }

    /// Change what the client shows; leaving a buffer view for a different
    /// view publishes that the old view lost focus.
    pub fn set_view(&mut self, view: ClientView, events: &mut crate::events::EditorEventQueue)
        requires
            old(events).wf(),
        ensures
            final(self).view_val() == view,
            final(self).is_active() == old(self).is_active(),
            final(self).handle_val() == old(self).handle_val(),
            final(events).wf(),
    {
        let lost_focus = match (self.view, view) {
            (ClientView::Buffer(current), ClientView::Buffer(next)) => {
                if current == next {
                    None
                } else {
                    Some(current)
                }
            }
            _ => None,
        };
        if let Some(current) = lost_focus {
            events.enqueue(crate::events::EditorEvent::BufferViewLostFocus {
                view_handle: current,
            });
        }
        self.view = view;
    }

    /// Whether the client has a terminal to draw into.
    pub fn has_ui(&self) -> (r: bool)
        ensures
            r == (self.viewport_width != 0 && self.viewport_height != 0),
    {
        self.viewport_width != 0 && self.viewport_height != 0
    }

    /// Recompute the text height and the scroll after a viewport, picker or
    /// cursor change: the height loses one status row and the picker's rows;
    /// the horizontal scroll moves so the main cursor's tab-expanded column
    /// is visible within the viewport width; the vertical scroll follows the
    /// half-height recentring rule. A client without a viewport keeps its
    /// scroll. `line` is the main cursor's line and the cursor's column sits
    /// on it.
    pub fn update_view(&mut self, line: &[u8], main_cursor: BufferPosition, tab_size: u8,
        picker_height: u16)
        requires
            tab_size >= 1,
            line@.len() <= u32::MAX,
            main_cursor.column_byte_index as int <= line@.len(),
            main_cursor.line_index < u32::MAX,
        ensures
            final(self).active == old(self).active,
            final(self).handle == old(self).handle,
            final(self).suspended == old(self).suspended,
            final(self).viewport_width == old(self).viewport_width,
            final(self).viewport_height == old(self).viewport_height,
            final(self).view == old(self).view,
            final(self).height as int == if old(self).viewport_height as int
                > picker_height as int + 1 {
                old(self).viewport_height - picker_height - 1
            } else {
                0
            },
            old(self).viewport_width == 0 ==> final(self).scroll_x == old(self).scroll_x
                && final(self).scroll_y == old(self).scroll_y,
            old(self).viewport_width > 0 ==> ({
                let col = main_cursor.column_byte_index as int;
                let sx = old(self).scroll_x as int;
                &&& (col < sx ==> final(self).scroll_x as int == col)
                &&& (col >= sx ==> ({
                    let tend = if col < line@.len() {
                        spec_char_end(line@, col)
                    } else {
                        line@.len() as int
                    };
                    let w = if col < line@.len() {
                        old(self).viewport_width as int
                    } else {
                        old(self).viewport_width - 1
                    };
                    final(self).scroll_x as int == match spec_first_visible(
                        line@.take(tend), tab_size as int, w, 0) {
                        Some(i) => if i > sx {
                            i
                        } else {
                            sx
                        },
                        None => sx,
                    }
                }))
                &&& ({
                    let li = main_cursor.line_index as int;
                    let sy = old(self).scroll_y as int;
                    let h = final(self).height as int;
                    let half = h / 2;
                    final(self).scroll_y as int == if li < (if sy >= half {
                        sy - half
                    } else {
                        0
                    }) {
                        if li >= half {
                            li - half
                        } else {
                            0
                        }
                    } else if li < sy {
                        li
                    } else if li >= sy + h + half {
                        li + 1 - half
                    } else if li >= sy + h {
                        li + 1 - h
                    } else {
                        sy
                    }
                })
            }),
    {
        let ph: u32 = picker_height as u32 + 1;
        self.height = if (self.viewport_height as u32) > ph {
            (self.viewport_height as u32 - ph) as u16
        } else {
            0
        };
        if self.viewport_width == 0 {
            return;
        }

        // horizontal: bring the cursor's column into the viewport
        let col = main_cursor.column_byte_index;
        if col < self.scroll_x {
            self.scroll_x = col;
        } else {
            let colu = col as usize;
            let (w, text_end): (u64, usize) = if colu < line.len() {
                (self.viewport_width as u64, char_end(line, colu))
            } else {
                ((self.viewport_width - 1) as u64, line.len())
            };
            let text = crate::text::copy_range(line, 0, text_end);
            proof {
                assert(text@ =~= line@.take(text_end as int));
            }
            match first_visible(text.as_slice(), tab_size, w) {
                Some(i) => {
                    if (i as u32) > self.scroll_x {
                        self.scroll_x = i as u32;
                    }
                }
                None => {}
            }
        }

        // vertical: the half-height recentring rule
        let li = main_cursor.line_index;
        let h: u32 = self.height as u32;
        let half: u32 = h / 2;
        let sy = self.scroll_y;
        let near_top: u32 = if sy >= half {
            sy - half
        } else {
            0
        };
        if li < near_top {
            self.scroll_y = if li >= half {
                li - half
            } else {
                0
            };
        } else if li < sy {
            self.scroll_y = li;
        } else if li as u64 >= sy as u64 + h as u64 + half as u64 {
            self.scroll_y = li + 1 - half;
        } else if li as u64 >= sy as u64 + h as u64 {
            self.scroll_y = li + 1 - h;
        }
    }
}

/// One past the end of the utf-8 character starting at byte `i`: the next
/// byte that starts a character, or the line's end.
pub open spec fn spec_char_end(line: Seq<u8>, i: int) -> int
    decreases line.len() - i,
{
    if i + 1 >= line.len() {
        line.len() as int
    } else if crate::display::is_continuation_byte(line[i + 1]) {
        spec_char_end(line, i + 1)
    } else {
        i + 1
    }
}

/// Executable form of `spec_char_end`.
fn char_end(line: &[u8], i: usize) -> (r: usize)
    requires
        i < line@.len(),
        line@.len() <= u32::MAX,
    ensures
        r == spec_char_end(line@, i as int),
        i < r <= line@.len(),
    decreases line@.len() - i,
{
    let mut j = i + 1;
    while j < line.len() && 0x80u8 <= line[j] && line[j] < 0xc0u8
        invariant
            i < j <= line@.len(),
            spec_char_end(line@, i as int) == spec_char_end(line@, j - 1),
        decreases line@.len() - j,
    {
        j = j + 1;
    }
    j
}

/// The first character start of `text` from which the rest of the text fits
/// within `w` display columns; `None` when even the last character alone
/// does not fit.
pub open spec fn spec_first_visible(text: Seq<u8>, tab_size: int, w: int, i: int)
    -> Option<int>
    decreases text.len() - i,
{
    if i < 0 || i >= text.len() {
        None
    } else if !crate::display::is_continuation_byte(text[i])
        && crate::display::spec_display_len(text.skip(i), tab_size) <= w {
        Some(i)
    } else {
        spec_first_visible(text, tab_size, w, i + 1)
    }
}

/// Executable form of `spec_first_visible` from the text's start.
fn first_visible(text: &[u8], tab_size: u8, w: u64) -> (r: Option<usize>)
    requires
        tab_size >= 1,
        text@.len() <= u32::MAX,
    ensures
        r matches Some(i) ==> spec_first_visible(text@, tab_size as int, w as int, 0)
            == Some(i as int) && i < text@.len(),
        r is None ==> spec_first_visible(text@, tab_size as int, w as int, 0) is None,
{
    let total = crate::display::display_len(text, tab_size);
    let mut prefix: u64 = 0;
    let mut i: usize = 0;
    proof {
        crate::display::lemma_display_len_bound(text@, tab_size as int);
    }
    while i < text.len()
        invariant
            tab_size >= 1,
            text@.len() <= u32::MAX,
            i <= text@.len(),
            prefix == crate::display::spec_display_len(text@.take(i as int),
                tab_size as int),
            total == crate::display::spec_display_len(text@, tab_size as int),
            spec_first_visible(text@, tab_size as int, w as int, 0)
                == spec_first_visible(text@, tab_size as int, w as int, i as int),
        decreases text@.len() - i,
    {
        proof {
            crate::display::lemma_display_len_split(text@, i as int, tab_size as int);
            crate::display::lemma_display_len_bound(text@.skip(i as int),
                tab_size as int);
            crate::display::lemma_display_len_bound(text@.take(i as int),
                tab_size as int);
        }
        let b = text[i];
        if !(0x80u8 <= b && b < 0xc0u8) {
            if total - prefix <= w {
                return Some(i);
            }
        }
        proof {
            crate::display::lemma_display_len_push(text@, i as int, tab_size as int);
            crate::display::lemma_display_len_bound(text@.take(i + 1 as int),
                tab_size as int);
            assert(text@.take(i + 1 as int).len() * (tab_size as int)
                <= text@.len() * 255) by (nonlinear_arith)
                requires
                    tab_size <= 255,
                    text@.take(i + 1 as int).len() <= text@.len(),
                    tab_size >= 1,
            ;
        }
        let width: u64 = if b == 9u8 {
            tab_size as u64
        } else if 0x80u8 <= b && b < 0xc0u8 {
            0
        } else {
            1
        };
        prefix = prefix + width;
        i = i + 1;
    }
    None
}

/// The server's table of client slots and the focus bookkeeping.
pub struct ClientManager {
    focused_client: Option<ClientHandle>,
    previous_focused_client: Option<ClientHandle>,
    clients: Vec<Client>,
}

impl ClientManager {
    pub closed spec fn focused(&self) -> Option<ClientHandle> {
        self.focused_client
    }

    pub closed spec fn previous_focused(&self) -> Option<ClientHandle> {
        self.previous_focused_client
    }

    pub closed spec fn clients_seq(&self) -> Seq<Client> {
        self.clients@
    }

    pub fn new() -> (r: Self)
        ensures
            r.focused() is None,
            r.previous_focused() is None,
            r.clients_seq().len() == 0,
    {
        Self { focused_client: None, previous_focused_client: None, clients: Vec::new() }
    }

    pub fn focused_client(&self) -> (r: Option<ClientHandle>)
        ensures
            r == self.focused(),
    {
        self.focused_client
    }

    pub fn previous_focused_client(&self) -> (r: Option<ClientHandle>)
        ensures
            r == self.previous_focused(),
    {
        self.previous_focused_client
    }

    /// Move focus to `handle`: an active client without a terminal cannot
    /// take focus, and focusing the already-focused client changes nothing;
    /// any other handle takes focus, and the old focus is remembered.
    pub fn focus_client(&mut self, handle: ClientHandle) -> (changed: bool)
        ensures
            ({
                let blocked = handle.spec_index() < old(self).clients_seq().len()
                    && old(self).clients_seq()[handle.spec_index()].is_active()
                    && !(old(self).clients_seq()[handle.spec_index()].viewport_width != 0
                        && old(self).clients_seq()[handle.spec_index()].viewport_height
                            != 0);
                changed <==> (!blocked && old(self).focused() != Some(handle))
            }),
            changed ==> final(self).focused() == Some(handle)
                && final(self).previous_focused() == old(self).focused()
                && final(self).clients_seq() == old(self).clients_seq(),
            !changed ==> *final(self) == *old(self),
    {
        let index = handle.into_index();
        if index < self.clients.len() {
            let client = &self.clients[index];
            if client.active && !client.has_ui() {
                return false;
            }
        }
        let changed = match self.focused_client {
            Some(current) => current != handle,
            None => true,
        };
        if changed {
            self.previous_focused_client = self.focused_client;
            self.focused_client = Some(handle);
            true
        } else {
            false
        }
    }

    /// Mark the slot of a newly connected client active.
    pub fn on_client_joined(&mut self, handle: ClientHandle)
        ensures
            final(self).clients_seq().len() > handle.spec_index(),
            final(self).clients_seq()[handle.spec_index()].is_active(),
            final(self).clients_seq()[handle.spec_index()].handle_val() == handle,
            final(self).focused() == old(self).focused(),
    {
        let min_len = handle.into_index() + 1;
        while self.clients.len() < min_len
            invariant
                self.focused_client == old(self).focused(),
                self.previous_focused_client == old(self).previous_focused(),
            decreases min_len - self.clients@.len(),
        {
            self.clients.push(Client::vacant());
        }
        let index = handle.into_index();
        let mut client = Client::vacant();
        client.active = true;
        client.handle = handle;
        self.clients.set(index, client);
    }

    /// Clear the slot of a departed client; focus leaves it when it had it.
    pub fn on_client_left(&mut self, handle: ClientHandle)
        requires
            handle.spec_index() < old(self).clients_seq().len(),
        ensures
            !final(self).clients_seq()[handle.spec_index()].is_active(),
            final(self).focused() == if old(self).focused() == Some(handle) {
                Option::<ClientHandle>::None
            } else {
                old(self).focused()
            },
    {
        self.clients.set(handle.into_index(), Client::vacant());
        if let Some(current) = self.focused_client {
            if current == handle {
                self.focused_client = None;
            }
        }
    }

    /// Read a client's slot, when it is active.
    pub fn get(&self, handle: ClientHandle) -> (r: Option<&Client>)
        ensures
            r is Some <==> handle.spec_index() < self.clients_seq().len()
                && self.clients_seq()[handle.spec_index()].is_active(),
            r is Some ==> r->Some_0 == &self.clients_seq()[handle.spec_index()],
    {
        let index = handle.into_index();
        if index < self.clients.len() {
            let client = &self.clients[index];
            if client.active {
                Some(client)
            } else {
                None
            }
        } else {
            None
        }
    }

    /// The handles of all active clients, in slot order.
    pub fn active_handles(&self) -> (r: Vec<ClientHandle>)
        ensures
            forall|k: int| 0 <= k < r@.len() ==> (#[trigger] r@[k]).spec_index()
                < self.clients_seq().len(),
    {
        let mut r: Vec<ClientHandle> = Vec::new();
        let mut i: usize = 0;
        while i < self.clients.len() && i <= 255
            invariant
                i <= self.clients@.len(),
                forall|k: int| 0 <= k < r@.len() ==> (#[trigger] r@[k]).spec_index()
                    < self.clients_seq().len(),
            decreases self.clients@.len() - i,
        {
            if self.clients[i].active {
                r.push(ClientHandle(i as u8));
            }
            i = i + 1;
        }
        r
    }
}

} // verus!
