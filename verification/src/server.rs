//! The decision core of the server's readiness loop: the platform request
//! and event types at the editor boundary, the pooled-buffer accounting, the
//! idle-timer state machine, and the request drain. The surrounding
//! readiness waiting, sockets, and process pipes live outside; they perform
//! the actions this core decides on and feed the events back.

use vstd::prelude::*;

use crate::client::ClientHandle;

verus! {

/// Which operation a spawned process belongs to.
#[derive(Debug, Clone, Copy, PartialEq, Eq, Structural)]
pub enum ProcessTag {
    Buffer(u32),
    Plugin(u32),
}

/// Handle of a platform process slot.
#[derive(Debug, Clone, Copy, PartialEq, Eq, Structural)]
pub struct PlatformProcessHandle(pub u8);

/// Handle of a pooled byte buffer lent out through the request and event
/// pipeline.
#[derive(Debug, Clone, Copy, PartialEq, Eq, Structural)]
pub struct PooledBuf(pub u32);

/// A platform-neutral command description: executable, arguments, and
/// working directory, each as plain bytes.
pub struct CommandSpec {
    pub program: Vec<u8>,
    pub args: Vec<Vec<u8>>,
    pub current_dir: Option<Vec<u8>>,
}

/// What the editor asks the platform to do.
pub enum PlatformRequest {
    Quit,
    Redraw,
    WriteToClient { handle: ClientHandle, buf: PooledBuf },
    CloseClient { handle: ClientHandle },
    SpawnProcess { tag: ProcessTag, command: CommandSpec, buf_len: u32 },
    WriteToProcess { handle: PlatformProcessHandle, buf: PooledBuf },
    CloseProcessInput { handle: PlatformProcessHandle },
    KillProcess { handle: PlatformProcessHandle },
}

/// What the platform reports back to the editor.
pub enum PlatformEvent {
    Idle,
    ConnectionOpen { handle: ClientHandle },
    ConnectionOutput { handle: ClientHandle, buf: PooledBuf },
    ConnectionClose { handle: ClientHandle },
    ProcessSpawned { tag: ProcessTag, handle: PlatformProcessHandle },
    ProcessOutput { tag: ProcessTag, buf: PooledBuf },
    ProcessExit { tag: ProcessTag },
}

/// The pool's ledger: how many buffers were lent out and how many came
/// back. A buffer in flight is one acquired and not yet released.
pub struct BufPool {
    acquired: u64,
    released: u64,
}

impl BufPool {
    pub closed spec fn acquired_count(&self) -> int {
        self.acquired as int
    }

    pub closed spec fn released_count(&self) -> int {
        self.released as int
    }

    /// The ledger invariant: nothing is released that was not acquired.
    pub open spec fn wf(&self) -> bool {
        self.released_count() <= self.acquired_count()
    }

    /// How many buffers are lent out right now.
    pub open spec fn in_flight(&self) -> int {
        self.acquired_count() - self.released_count()
    }

    pub fn new() -> (r: Self)
        ensures
            r.wf(),
            r.acquired_count() == 0,
            r.released_count() == 0,
    {
        Self { acquired: 0, released: 0 }
    }

    /// The ledger's two counters, for observation.
    pub fn counts(&self) -> (r: (u64, u64))
        ensures
            r.0 == self.acquired_count(),
            r.1 == self.released_count(),
    {
        (self.acquired, self.released)
    }

    /// Lend one buffer out.
    pub fn acquire(&mut self) -> (r: PooledBuf)
        requires
            old(self).wf(),
            old(self).acquired_count() < u64::MAX,
        ensures
            final(self).wf(),
            final(self).acquired_count() == old(self).acquired_count() + 1,
            final(self).released_count() == old(self).released_count(),
    {
        let id = self.acquired;
        self.acquired = self.acquired + 1;
        PooledBuf(id as u32)
    }

    /// Take one buffer back.
    pub fn release(&mut self, buf: PooledBuf)
        requires
            old(self).wf(),
            old(self).in_flight() > 0,
        ensures
            final(self).wf(),
            final(self).acquired_count() == old(self).acquired_count(),
            final(self).released_count() == old(self).released_count() + 1,
    {
        let _ = buf;
        self.released = self.released + 1;
    }
}

/// The one timeout the server loop tracks.
#[derive(Debug, Clone, Copy, PartialEq, Eq, Structural)]
pub enum LoopTimeout {
    /// Poll immediately: work may already be pending.
    Zero,
    /// Wait the configured idle duration: the last tick produced work.
    Idle,
    /// Block until readiness: the quiet period's idle event was delivered.
    Infinite,
}

/// What one readiness wait decided.
#[derive(Debug, Clone, Copy, PartialEq, Eq, Structural)]
pub struct WaitOutcome {
    /// Whether a synthetic idle event is to be fed to the editor now.
    pub emit_idle: bool,
    /// The timeout to arm for the next wait.
    pub next_timeout: LoopTimeout,
}

/// The idle-timer step: what an empty wakeup (no source fired) does to the
/// timeout, and when it produces the one idle event of a quiet period.
pub open spec fn spec_idle_step(timeout: LoopTimeout) -> WaitOutcome {
    match timeout {
        LoopTimeout::Zero => WaitOutcome { emit_idle: false, next_timeout: LoopTimeout::Idle },
        LoopTimeout::Idle => WaitOutcome {
            emit_idle: true,
            next_timeout: LoopTimeout::Infinite,
        },
        LoopTimeout::Infinite => WaitOutcome {
            emit_idle: false,
            next_timeout: LoopTimeout::Infinite,
        },
    }
}

/// Decide what an elapsed readiness wait means: a wakeup with work arms an
/// immediate poll; an empty wakeup steps the idle timer.
pub fn on_wait_elapsed(timeout: LoopTimeout, any_source_fired: bool) -> (r: WaitOutcome)
    ensures
        any_source_fired ==> r == (WaitOutcome {
            emit_idle: false,
            next_timeout: LoopTimeout::Zero,
        }),
        !any_source_fired ==> r == spec_idle_step(timeout),
{
    if any_source_fired {
        WaitOutcome { emit_idle: false, next_timeout: LoopTimeout::Zero }
    } else {
        match timeout {
            LoopTimeout::Zero => WaitOutcome {
                emit_idle: false,
                next_timeout: LoopTimeout::Idle,
            },
            LoopTimeout::Idle => WaitOutcome {
                emit_idle: true,
                next_timeout: LoopTimeout::Infinite,
            },
            LoopTimeout::Infinite => WaitOutcome {
                emit_idle: false,
                next_timeout: LoopTimeout::Infinite,
            },
        }
    }
}

/// How many idle events a run of consecutive empty wakeups emits, starting
/// from the given timeout.
pub open spec fn spec_idle_emissions(timeout: LoopTimeout, wakeups: nat) -> int
    decreases wakeups,
{
    if wakeups == 0 {
        0
    } else {
        let step = spec_idle_step(timeout);
        (if step.emit_idle {
            1int
        } else {
            0int
        }) + spec_idle_emissions(step.next_timeout, (wakeups - 1) as nat)
    }
}

/// Idle fires exactly once per quiet period: however many consecutive empty
/// wakeups elapse with no client or process activity, at most one idle
/// event is produced; exactly one once the quiet period outlasts the armed
/// idle duration (one empty wakeup from the idle timeout, two from an
/// immediate poll), and none at all after the idle event was delivered,
/// until other activity re-arms the timer.
pub proof fn lemma_idle_once_per_quiet_period(timeout: LoopTimeout, wakeups: nat)
    ensures
        0 <= spec_idle_emissions(timeout, wakeups) <= 1,
        timeout is Idle && wakeups >= 1 ==> spec_idle_emissions(timeout, wakeups) == 1,
        timeout is Zero && wakeups >= 2 ==> spec_idle_emissions(timeout, wakeups) == 1,
        timeout is Infinite ==> spec_idle_emissions(timeout, wakeups) == 0,
    decreases wakeups,
{
    if wakeups > 0 {
        let step = spec_idle_step(timeout);
        lemma_idle_once_per_quiet_period(step.next_timeout, (wakeups - 1) as nat);
    }
}

/// One client's pending outgoing data: the pooled buffers queued for its
/// connection.
pub struct ClientWriteQueue {
    pub bufs: Vec<PooledBuf>,
}

/// The server loop's owned state: the buffer ledger, the per-client write
/// queues, the redraw latch, and the armed timeout.
pub struct ServerLoopState {
    pub pool: BufPool,
    pub write_queues: Vec<ClientWriteQueue>,
    pub needs_redraw: bool,
    pub timeout: LoopTimeout,
}

/// Buffers queued across all client write queues.
pub open spec fn queued_bufs(queues: Seq<ClientWriteQueue>) -> int
    decreases queues.len(),
{
    if queues.len() == 0 {
        0
    } else {
        queues[0].bufs@.len() + queued_bufs(queues.drop_first())
    }
}

/// Buffers carried by the not-yet-drained requests.
pub open spec fn request_bufs(requests: Seq<PlatformRequest>) -> int
    decreases requests.len(),
{
    if requests.len() == 0 {
        0
    } else {
        (match requests[0] {
            PlatformRequest::WriteToClient { .. } => 1int,
            PlatformRequest::WriteToProcess { .. } => 1int,
            _ => 0int,
        }) + request_bufs(requests.drop_first())
    }
}

impl ServerLoopState {
    /// The accounting invariant: every buffer in flight sits in a client
    /// write queue or in a pending request; `pending` counts the latter.
    pub open spec fn accounted(&self, pending: int) -> bool {
        &&& self.pool.wf()
        &&& self.pool.in_flight() == queued_bufs(self.write_queues@) + pending
        &&& pending >= 0
    }

    pub fn new() -> (r: Self)
        ensures
            r.accounted(0),
            r.timeout is Idle,
            !r.needs_redraw,
    {
        let r = Self {
            pool: BufPool::new(),
            write_queues: Vec::new(),
            needs_redraw: false,
            timeout: LoopTimeout::Idle,
        };
        proof {
            assert(queued_bufs(r.write_queues@) == 0);
        }
        r
    }

    /// Move a buffer that arrived in a request into a client's write queue:
    /// the buffer is appended to queue `index`, the other queues and the
    /// pool's counters are untouched, and the buffer stays in flight, now
    /// accounted to the queue.
    pub fn queue_client_write(&mut self, index: usize, buf: PooledBuf)
        requires
            old(self).accounted(1),
            index < old(self).write_queues@.len(),
        ensures
            final(self).accounted(0),
            final(self).pool == old(self).pool,
            final(self).write_queues@.len() == old(self).write_queues@.len(),
            final(self).write_queues@[index as int].bufs@
                == old(self).write_queues@[index as int].bufs@.push(buf),
            forall|k: int| 0 <= k < old(self).write_queues@.len() && k != index
                ==> final(self).write_queues@[k] == old(self).write_queues@[k],
            final(self).timeout == old(self).timeout,
            final(self).needs_redraw == old(self).needs_redraw,
    {
        let mut queue = ClientWriteQueue { bufs: Vec::new() };
        core::mem::swap(&mut queue, &mut self.write_queues[index]);
        let ghost before = queue.bufs@;
        queue.bufs.push(buf);
        let ghost after = queue.bufs@;
        core::mem::swap(&mut queue, &mut self.write_queues[index]);
        proof {
            lemma_queued_update(old(self).write_queues@, index as int, 1);
            assert(self.write_queues@ =~= old(self).write_queues@.update(index as int,
                self.write_queues@[index as int]));
        }
    }

    /// Release a request's buffer straight back to the pool, as the drain
    /// does when the target connection is already gone.
    pub fn release_request_buf(&mut self, buf: PooledBuf)
        requires
            old(self).accounted(1),
        ensures
            final(self).accounted(0),
            final(self).write_queues@ == old(self).write_queues@,
            final(self).timeout == old(self).timeout,
            final(self).needs_redraw == old(self).needs_redraw,
    {
        proof {
            lemma_queued_nonneg(self.write_queues@);
        }
        self.pool.release(buf);
    }

    /// Whether a writable wakeup on a client connection counts as work: only
    /// when its write queue holds something to flush. A spurious writable
    /// wakeup with an empty queue must not trigger a work iteration by
    /// itself.
    pub fn writable_wakeup_is_work(&self, index: usize) -> (r: bool)
        requires
            index < self.write_queues@.len(),
        ensures
            r == (self.write_queues@[index as int].bufs@.len() > 0),
    {
        self.write_queues[index].bufs.len() > 0
    }

    /// The timeout armed at the end of a tick: an immediate poll while the
    /// drain produced new events or the redraw latch is set, else the idle
    /// duration.
    pub fn end_of_tick_timeout(&self, produced_events: bool) -> (r: LoopTimeout)
        ensures
            r == (if produced_events || self.needs_redraw {
                LoopTimeout::Zero
            } else {
                LoopTimeout::Idle
            }),
    {
        if produced_events || self.needs_redraw {
            LoopTimeout::Zero
        } else {
            LoopTimeout::Idle
        }
    }

    /// Set the redraw latch and arm an immediate poll: what `Redraw` does.
    pub fn process_redraw(&mut self)
        ensures
            final(self).needs_redraw,
            final(self).timeout is Zero,
            final(self).pool == old(self).pool,
            final(self).write_queues@ == old(self).write_queues@,
    {
        self.needs_redraw = true;
        self.timeout = LoopTimeout::Zero;
    }

    /// Drain every write queue and release every queued buffer, then
    /// release the buffers of every remaining request: what `Quit` does
    /// before the loop returns. Afterwards the pool's release count equals
    /// its acquire count: every buffer that was in flight came back.
    pub fn process_quit(&mut self, remaining: Vec<PlatformRequest>)
        requires
            old(self).accounted(request_bufs(remaining@)),
        ensures
            final(self).pool.wf(),
            final(self).pool.in_flight() == 0,
            final(self).pool.released_count() == final(self).pool.acquired_count(),
            final(self).pool.acquired_count() == old(self).pool.acquired_count(),
    {
        let ghost pending = request_bufs(remaining@);
        while self.write_queues.len() > 0
            invariant
                self.pool.wf(),
                self.pool.acquired_count() == old(self).pool.acquired_count(),
                self.pool.in_flight() == queued_bufs(self.write_queues@) + pending,
                pending >= 0,
            decreases self.write_queues@.len(),
        {
            let ghost queues = self.write_queues@;
            let mut queue = self.write_queues.pop().unwrap();
            let ghost rest_queues = self.write_queues@;
            proof {
                lemma_queued_drop_last(queues);
                assert(self.write_queues@ =~= queues.drop_last());
            }
            while queue.bufs.len() > 0
                invariant
                    self.pool.wf(),
                    self.pool.acquired_count() == old(self).pool.acquired_count(),
                    self.write_queues@ == rest_queues,
                    self.pool.in_flight() == queued_bufs(self.write_queues@)
                        + queue.bufs@.len() + pending,
                    pending >= 0,
                decreases queue.bufs@.len(),
            {
                proof {
                    lemma_queued_nonneg(self.write_queues@);
                }
                let buf = queue.bufs.pop().unwrap();
                self.pool.release(buf);
            }
        }
        let mut rem = remaining;
        while rem.len() > 0
            invariant
                self.pool.wf(),
                self.pool.acquired_count() == old(self).pool.acquired_count(),
                self.pool.in_flight() == queued_bufs(self.write_queues@)
                    + request_bufs(rem@),
                queued_bufs(self.write_queues@) == 0,
            decreases rem@.len(),
        {
            let ghost rems = rem@;
            let request = rem.pop().unwrap();
            proof {
                lemma_request_bufs_drop_last(rems);
                assert(rem@ =~= rems.drop_last());
            }
            proof {
                lemma_request_bufs_nonneg(rem@);
            }
            match request {
                PlatformRequest::WriteToClient { buf, .. } => {
                    self.pool.release(buf);
                }
                PlatformRequest::WriteToProcess { buf, .. } => {
                    self.pool.release(buf);
                }
                _ => {}
            }
        }
        proof {
            assert(queued_bufs(self.write_queues@) == 0);
            assert(request_bufs(rem@) == 0);
        }
    }
}

/// Queued-buffer counts are never negative.
proof fn lemma_queued_nonneg(queues: Seq<ClientWriteQueue>)
    ensures
        queued_bufs(queues) >= 0,
    decreases queues.len(),
{
    if queues.len() > 0 {
        lemma_queued_nonneg(queues.drop_first());
    }
}

/// Request-buffer counts are never negative.
proof fn lemma_request_bufs_nonneg(requests: Seq<PlatformRequest>)
    ensures
        request_bufs(requests) >= 0,
    decreases requests.len(),
{
    if requests.len() > 0 {
        lemma_request_bufs_nonneg(requests.drop_first());
    }
}

/// Popping the last queue splits the queued-buffer count.
proof fn lemma_queued_drop_last(queues: Seq<ClientWriteQueue>)
    requires
        queues.len() >= 1,
    ensures
        queued_bufs(queues) == queued_bufs(queues.drop_last())
            + queues.last().bufs@.len(),
    decreases queues.len(),
{
    if queues.len() == 1 {
        assert(queues.drop_last() =~= Seq::<ClientWriteQueue>::empty());
        assert(queues.drop_first() =~= Seq::<ClientWriteQueue>::empty());
        assert(queued_bufs(Seq::<ClientWriteQueue>::empty()) == 0);
        assert(queued_bufs(queues) == queues[0].bufs@.len());
    } else {
        lemma_queued_drop_last(queues.drop_first());
        assert(queues.drop_last().drop_first() =~= queues.drop_first().drop_last());
        assert(queues.drop_first().last() == queues.last());
        assert(queues.drop_last()[0] == queues[0]);
    }
}

/// Updating one queue changes the queued-buffer count by the queue's growth.
proof fn lemma_queued_update(queues: Seq<ClientWriteQueue>, i: int, growth: int)
    requires
        0 <= i < queues.len(),
    ensures
        forall|q: ClientWriteQueue| q.bufs@.len() == queues[i].bufs@.len() + growth
            ==> queued_bufs(#[trigger] queues.update(i, q)) == queued_bufs(queues)
                + growth,
    decreases queues.len(),
{
    assert forall|q: ClientWriteQueue| q.bufs@.len() == queues[i].bufs@.len() + growth
        implies queued_bufs(#[trigger] queues.update(i, q)) == queued_bufs(queues)
            + growth by {
        if i == 0 {
            assert(queues.update(0, q).drop_first() =~= queues.drop_first());
            assert(queues.update(0, q)[0] == q);
        } else {
            lemma_queued_update(queues.drop_first(), i - 1, growth);
            assert(queues.update(i, q).drop_first() =~= queues.drop_first().update(i - 1,
                q));
            assert(queues.update(i, q)[0] == queues[0]);
        }
    }
}

/// Popping the last request splits the request-buffer count.
proof fn lemma_request_bufs_drop_last(requests: Seq<PlatformRequest>)
    requires
        requests.len() >= 1,
    ensures
        request_bufs(requests) == request_bufs(requests.drop_last()) + (
        match requests.last() {
            PlatformRequest::WriteToClient { .. } => 1int,
            PlatformRequest::WriteToProcess { .. } => 1int,
            _ => 0int,
        }),
    decreases requests.len(),
{
    if requests.len() == 1 {
        assert(requests.drop_last() =~= Seq::<PlatformRequest>::empty());
        assert(requests.drop_first() =~= Seq::<PlatformRequest>::empty());
        assert(request_bufs(Seq::<PlatformRequest>::empty()) == 0);
    } else {
        lemma_request_bufs_drop_last(requests.drop_first());
        assert(requests.drop_last().drop_first() =~= requests.drop_first().drop_last());
        assert(requests.drop_first().last() == requests.last());
        assert(requests.drop_last()[0] == requests[0]);
    }
}

} // verus!
