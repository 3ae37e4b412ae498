use vstd::prelude::*;

use std::sync::Arc;
use std::time::{Duration, Instant};

use cancellation::CancellationTokenSource;
use flume::{Receiver, Sender};

use crate::obj_file::share;
use crate::rgba::{Rgba, RgbaBuffer, with_pixel};
use crate::view_chunk::pixel_offset;
use crate::timer::instant_elapsed;
use crate::viewport::RenderChunk;

verus! {

#[verifier::external_type_specification]
#[verifier::external_body]
#[verifier::reject_recursive_types(T)]
pub struct ExReceiver<T>(Receiver<T>);

#[verifier::external_type_specification]
#[verifier::external_body]
#[verifier::reject_recursive_types(T)]
pub struct ExSender<T>(Sender<T>);

#[verifier::external_type_specification]
#[verifier::external_body]
pub struct ExCancellationTokenSource(CancellationTokenSource);

/// The identifier of a render thread.
pub type ThreadId = u32;

/// A message from a render thread to the thread that runs the job.
pub enum RenderThreadMessage {
    /// The thread is ready for work.
    Ready,
    /// A chunk's pixels, in progress or final.
    FrameUpdated(RenderChunk, RgbaBuffer),
    /// The thread finished a chunk in the given time.
    FrameCompleted(ThreadId, Duration),
    /// The thread stopped.
    Terminated,
}

/// A chunk to render, with what the render threads render it from.
pub struct RenderWork<A>(pub RenderChunk, pub Arc<A>);

/// What came of one update of a render job.
#[derive(Clone, Copy, Debug, PartialEq, Eq, Structural)]
pub enum RenderJobUpdateResult {
    Updated,
    ErrorRenderThreadsStopped,
}

/// A render thread: its identifier, its handle, and how many chunks it
/// rendered in how much time.
pub struct RenderThread<H> {
    pub id: ThreadId,
    pub handle: H,
    pub total_time: Duration,
    pub total_chunks_rendered: u32,
}

/// What a thread reports of its work.
#[derive(Clone, Copy, Debug)]
pub struct ThreadStats {
    pub id: u32,
    pub total_time: Duration,
    pub total_chunks_rendered: u32,
}

/// The channels to and from the render threads, the source that cancels
/// them, and the threads.
#[verifier::reject_recursive_types(A)]
pub struct RenderJobWorkerHandle<H, A> {
    pub cts: CancellationTokenSource,
    pub work_sender: Sender<RenderWork<A>>,
    pub result_receiver: Receiver<RenderThreadMessage>,
    pub thread_handles: Vec<RenderThread<H>>,
}

/// A render in progress: the chunks to render, how many were handed out and
/// how many came back, the chunk images not yet shown, and the time spent.
#[verifier::reject_recursive_types(A)]
pub struct RenderJob<H, A> {
    pub render_args: Arc<A>,
    pub chunks: Vec<RenderChunk>,
    pub next_chunk_index: usize,
    pub start_time: Instant,
    pub render_time: Duration,
    pub completed_chunk_count: usize,
    pub updates: Vec<([usize; 2], RgbaBuffer)>,
    pub worker_handle: RenderJobWorkerHandle<H, A>,
}

/// Whether one more chunk could be handed to the render threads.
#[derive(Clone, Copy, Debug, PartialEq, Eq, Structural)]
pub enum SendOutcome {
    Sent,
    Full,
    Disconnected,
}

/// A message that waits in the channel, if any (`Receiver::try_recv`; an
/// empty or disconnected channel gives none). What comes depends on the
/// render threads, so nothing is stated of it.
#[verifier::external_body]
fn try_recv_message(rx: &Receiver<RenderThreadMessage>) -> Option<RenderThreadMessage> {
    rx.try_recv().ok()
}

/// Hands `work` to the render threads without waiting (`Sender::try_send`):
/// it is sent, or the channel is full, or no thread receives any more. Which
/// depends on the render threads, so nothing is stated of it.
#[verifier::external_body]
fn try_send_work<A>(tx: &Sender<RenderWork<A>>, work: RenderWork<A>) -> SendOutcome {
    match tx.try_send(work) {
        Ok(()) => SendOutcome::Sent,
        Err(flume::TrySendError::Full(_)) => SendOutcome::Full,
        Err(flume::TrySendError::Disconnected(_)) => SendOutcome::Disconnected,
    }
}

/// The sum of two durations, or the longest duration where it overflows.
pub uninterp spec fn saturating_sum(a: Duration, b: Duration) -> Duration;

/// The sum of two durations, or the longest duration where it overflows
/// (`Duration::saturating_add`): claimed to depend on the two durations alone.
#[verifier::external_body]
fn duration_sum(a: Duration, b: Duration) -> (d: Duration)
    ensures
        d == saturating_sum(a, b),
{
    a.saturating_add(b)
}

/// The duration of `secs` seconds and `nanos` nanoseconds.
pub uninterp spec fn duration_of(secs: u64, nanos: u32) -> Duration;

/// The duration of `secs` seconds and `nanos` nanoseconds (`Duration::new`).
#[verifier::external_body]
fn new_duration(secs: u64, nanos: u32) -> (d: Duration)
    requires
        nanos < 1_000_000_000,
    ensures
        d == duration_of(secs, nanos),
{
    Duration::new(secs, nanos)
}

/// `n` plus one, or `n` where that overflows.
pub open spec fn count_up(n: int, max: int) -> int {
    if n < max {
        n + 1
    } else {
        n
    }
}

/// What the messages of the render threads change in a job: the count of
/// chunks come back, the chunk images not yet shown, and the threads.
pub type JobTally<H> = (usize, Seq<([usize; 2], RgbaBuffer)>, Seq<RenderThread<H>>);

/// The tally after one message: a chunk image is kept to be shown; a
/// finished chunk counts as complete and adds to its thread's chunks and
/// time, where the job has that thread; counts stop at their largest value.
pub open spec fn message_effect<H>(t: JobTally<H>, m: RenderThreadMessage) -> JobTally<H> {
    match m {
        RenderThreadMessage::FrameUpdated(chunk, buf) => (t.0, t.1.push(([chunk.left, chunk.top], buf)), t.2),
        RenderThreadMessage::FrameCompleted(id, elapsed) => (
            count_up(t.0 as int, usize::MAX as int) as usize,
            t.1,
            if id < t.2.len() {
                let th = t.2[id as int];
                t.2.update(
                    id as int,
                    RenderThread {
                        id: th.id,
                        handle: th.handle,
                        total_time: saturating_sum(th.total_time, elapsed),
                        total_chunks_rendered: count_up(th.total_chunks_rendered as int, u32::MAX as int) as u32,
                    },
                )
            } else {
                t.2
            },
        ),
        _ => t,
    }
}

/// The tally after the messages `ms`, in order.
pub open spec fn messages_effect<H>(t: JobTally<H>, ms: Seq<RenderThreadMessage>) -> JobTally<H>
    decreases ms.len(),
{
    if ms.len() == 0 {
        t
    } else {
        message_effect(messages_effect(t, ms.drop_last()), ms.last())
    }
}

impl<H, A> RenderJob<H, A> {
    /// What the messages of the render threads change in the job.
    pub open spec fn tally(&self) -> JobTally<H> {
        (self.completed_chunk_count, self.updates@, self.worker_handle.thread_handles@)
    }
}

impl<H, A> RenderJob<H, A> {
    /// A job that renders `chunks` from `render_args` on the given threads,
    /// none handed out yet, started at `start_time`.
    pub fn new(
        render_args: Arc<A>,
        chunks: Vec<RenderChunk>,
        start_time: Instant,
        worker_handle: RenderJobWorkerHandle<H, A>,
    ) -> (job: Self)
        ensures
            job.render_args == render_args,
            job.chunks == chunks,
            job.next_chunk_index == 0,
            job.start_time == start_time,
            job.render_time == duration_of(0, 0),
            job.completed_chunk_count == 0,
            job.updates@.len() == 0,
            job.worker_handle == worker_handle,
    {
        RenderJob {
            render_args,
            chunks,
            next_chunk_index: 0,
            start_time,
            render_time: new_duration(0, 0),
            completed_chunk_count: 0,
            updates: Vec::new(),
            worker_handle,
        }
    }

    /// Every chunk has come back.
    pub fn is_work_completed(&self) -> (done: bool)
        ensures
            done == (self.completed_chunk_count >= self.chunks@.len()),
    {
        self.completed_chunk_count >= self.chunks.len()
    }

    /// Takes in one message of a render thread: a chunk image is kept to be
    /// shown; a finished chunk counts as complete and adds to its thread's
    /// chunks and time (a thread that the job does not have adds to none);
    /// other messages change nothing. Counts stop at their largest value.
    pub fn apply_message(&mut self, message: RenderThreadMessage)
        ensures
            final(self).render_args == old(self).render_args,
            final(self).chunks == old(self).chunks,
            final(self).next_chunk_index == old(self).next_chunk_index,
            final(self).start_time == old(self).start_time,
            final(self).render_time == old(self).render_time,
            final(self).worker_handle.cts == old(self).worker_handle.cts,
            final(self).worker_handle.work_sender == old(self).worker_handle.work_sender,
            final(self).worker_handle.result_receiver == old(self).worker_handle.result_receiver,
            final(self).tally() == message_effect(old(self).tally(), message),
    {
        match message {
            RenderThreadMessage::Ready => {},
            RenderThreadMessage::FrameUpdated(chunk, buf) => {
                self.updates.push(([chunk.left, chunk.top], buf));
            },
            RenderThreadMessage::FrameCompleted(id, elapsed) => {
                let i = id as usize;
                if i < self.worker_handle.thread_handles.len() {
                    let ghost ts = self.worker_handle.thread_handles@;
                    let mut thread = self.worker_handle.thread_handles.remove(i);
                    thread.total_time = duration_sum(thread.total_time, elapsed);
                    if thread.total_chunks_rendered < u32::MAX {
                        thread.total_chunks_rendered = thread.total_chunks_rendered + 1;
                    }
                    self.worker_handle.thread_handles.insert(i, thread);
                    assert(self.worker_handle.thread_handles@ =~= ts.update(i as int, thread));
                }
                if self.completed_chunk_count < usize::MAX {
                    self.completed_chunk_count = self.completed_chunk_count + 1;
                }
            },
            RenderThreadMessage::Terminated => {},
        }
    }
}

impl<H, A> RenderJob<H, A> {
    /// Takes in the messages that wait from the render threads, each as
    /// `apply_message` does, then hands out chunks in order (each as
    /// `next_work` gives it, and each outcome taken as `on_send_outcome`
    /// takes it) until every chunk
    /// is handed out or the work channel is full, and updates the render time
    /// while chunks are outstanding. Fails, leaving the render time, when no
    /// render thread receives work any more. The messages, the room in the
    /// channel and the time depend on the render threads and the clock: what is
    /// stated holds whatever they are.
    pub fn update(&mut self) -> (r: RenderJobUpdateResult)
        ensures
            final(self).render_args == old(self).render_args,
            final(self).chunks == old(self).chunks,
            final(self).start_time == old(self).start_time,
            final(self).worker_handle.cts == old(self).worker_handle.cts,
            final(self).worker_handle.work_sender == old(self).worker_handle.work_sender,
            final(self).worker_handle.result_receiver == old(self).worker_handle.result_receiver,
            final(self).worker_handle.thread_handles@.len() == old(self).worker_handle.thread_handles@.len(),
            old(self).next_chunk_index <= final(self).next_chunk_index,
            final(self).next_chunk_index == old(self).next_chunk_index || final(self).next_chunk_index
                <= final(self).chunks@.len(),
            final(self).completed_chunk_count >= old(self).completed_chunk_count,
            old(self).updates@.len() <= final(self).updates@.len(),
            forall|k: int| 0 <= k < old(self).updates@.len() ==> #[trigger] final(self).updates@[k] == old(self).updates@[k],
            r == RenderJobUpdateResult::Updated && final(self).completed_chunk_count >= final(self).chunks@.len()
                ==> final(self).render_time == old(self).render_time,
            exists|ms: Seq<RenderThreadMessage>| #[trigger] messages_effect(old(self).tally(), ms) == final(self).tally(),
            r == RenderJobUpdateResult::ErrorRenderThreadsStopped ==> {
                &&& final(self).next_chunk_index < final(self).chunks@.len()
                &&& final(self).render_time == old(self).render_time
            },
    {
        // A channel that never runs dry is drained again at the next update.
        let mut budget: usize = usize::MAX;
        let ghost mut taken: Seq<RenderThreadMessage> = Seq::empty();
        while budget > 0
            invariant
                messages_effect(old(self).tally(), taken) == self.tally(),
                self.render_args == old(self).render_args,
                self.chunks == old(self).chunks,
                self.next_chunk_index == old(self).next_chunk_index,
                self.start_time == old(self).start_time,
                self.render_time == old(self).render_time,
                self.worker_handle.cts == old(self).worker_handle.cts,
                self.worker_handle.work_sender == old(self).worker_handle.work_sender,
                self.worker_handle.result_receiver == old(self).worker_handle.result_receiver,
                self.worker_handle.thread_handles@.len() == old(self).worker_handle.thread_handles@.len(),
                self.completed_chunk_count >= old(self).completed_chunk_count,
                old(self).updates@.len() <= self.updates@.len(),
                forall|k: int| 0 <= k < old(self).updates@.len() ==> #[trigger] self.updates@[k] == old(self).updates@[k],
            decreases budget,
        {
            match try_recv_message(&self.worker_handle.result_receiver) {
                Some(message) => {
                    let ghost m = message;
                    self.apply_message(message);
                    proof {
                        assert(taken.push(m).drop_last() =~= taken);
                        taken = taken.push(m);
                    }
                },
                None => break,
            }
            budget -= 1;
        }
        let ghost drained = self.tally();
        assert(messages_effect(old(self).tally(), taken) == drained);
        while self.next_chunk_index < self.chunks.len()
            invariant
                self.tally() == drained,
                messages_effect(old(self).tally(), taken) == drained,
                self.render_args == old(self).render_args,
                self.chunks == old(self).chunks,
                old(self).next_chunk_index <= self.next_chunk_index,
                self.next_chunk_index == old(self).next_chunk_index || self.next_chunk_index <= self.chunks@.len(),
                self.start_time == old(self).start_time,
                self.render_time == old(self).render_time,
                self.worker_handle.cts == old(self).worker_handle.cts,
                self.worker_handle.work_sender == old(self).worker_handle.work_sender,
                self.worker_handle.result_receiver == old(self).worker_handle.result_receiver,
                self.worker_handle.thread_handles@.len() == old(self).worker_handle.thread_handles@.len(),
                self.completed_chunk_count >= old(self).completed_chunk_count,
                old(self).updates@.len() <= self.updates@.len(),
                forall|k: int| 0 <= k < old(self).updates@.len() ==> #[trigger] self.updates@[k] == old(self).updates@[k],
            decreases self.chunks@.len() - self.next_chunk_index,
        {
            let work = self.next_work();
            let outcome = try_send_work(&self.worker_handle.work_sender, work);
            match self.on_send_outcome(outcome) {
                None => {},
                Some(RenderJobUpdateResult::Updated) => break,
                Some(RenderJobUpdateResult::ErrorRenderThreadsStopped) => {
                    return RenderJobUpdateResult::ErrorRenderThreadsStopped;
                },
            }
        }
        if !self.is_work_completed() {
            self.render_time = instant_elapsed(&self.start_time);
        }
        RenderJobUpdateResult::Updated
    }

    /// What handing out the next chunk came to: a chunk that was sent counts
    /// as handed out and the next one is tried; a full channel ends the
    /// handing out for this update, and a channel that no thread receives from
    /// any more fails it; the job stays as it is in both.
    pub fn on_send_outcome(&mut self, outcome: SendOutcome) -> (stop: Option<RenderJobUpdateResult>)
        requires
            old(self).next_chunk_index < old(self).chunks@.len(),
        ensures
            match outcome {
                SendOutcome::Sent => {
                    &&& stop is None
                    &&& *final(self) == (RenderJob { next_chunk_index: (old(self).next_chunk_index + 1) as usize, ..*old(self) })
                },
                SendOutcome::Full => {
                    &&& stop == Some(RenderJobUpdateResult::Updated)
                    &&& *final(self) == *old(self)
                },
                SendOutcome::Disconnected => {
                    &&& stop == Some(RenderJobUpdateResult::ErrorRenderThreadsStopped)
                    &&& *final(self) == *old(self)
                },
            },
    {
        match outcome {
            SendOutcome::Sent => {
                let n = self.chunks.len();
                assert(self.next_chunk_index < n);
                self.next_chunk_index = self.next_chunk_index + 1;
                None
            },
            SendOutcome::Full => Some(RenderJobUpdateResult::Updated),
            SendOutcome::Disconnected => Some(RenderJobUpdateResult::ErrorRenderThreadsStopped),
        }
    }

    /// The work that hands out the next chunk: that chunk, with the job's
    /// render arguments.
    pub fn next_work(&self) -> (w: RenderWork<A>)
        requires
            self.next_chunk_index < self.chunks@.len(),
        ensures
            w.0 == self.chunks@[self.next_chunk_index as int],
            w.1 == self.render_args,
    {
        RenderWork(self.chunks[self.next_chunk_index], share(&self.render_args))
    }

    /// Starts over: no chunk handed out, none come back.
    #[allow(unused)]
    fn reset(&mut self)
        ensures
            final(self).next_chunk_index == 0,
            final(self).completed_chunk_count == 0,
            final(self).chunks == old(self).chunks,
    {
        self.next_chunk_index = 0;
        self.completed_chunk_count = 0;
    }

    /// What each thread reports of its work, in the order of the threads.
    pub fn thread_stats(&self) -> (stats: Vec<ThreadStats>)
        ensures
            stats@.len() == self.worker_handle.thread_handles@.len(),
            forall|k: int|
                0 <= k < stats@.len() ==> {
                    let t = self.worker_handle.thread_handles@[k];
                    &&& (#[trigger] stats@[k]).id == t.id
                    &&& stats@[k].total_time == t.total_time
                    &&& stats@[k].total_chunks_rendered == t.total_chunks_rendered
                },
    {
        let mut stats: Vec<ThreadStats> = Vec::new();
        let mut i: usize = 0;
        while i < self.worker_handle.thread_handles.len()
            invariant
                i <= self.worker_handle.thread_handles@.len(),
                stats@.len() == i,
                forall|k: int|
                    0 <= k < i ==> {
                        let t = self.worker_handle.thread_handles@[k];
                        &&& (#[trigger] stats@[k]).id == t.id
                        &&& stats@[k].total_time == t.total_time
                        &&& stats@[k].total_chunks_rendered == t.total_chunks_rendered
                    },
            decreases self.worker_handle.thread_handles@.len() - i,
        {
            let t = &self.worker_handle.thread_handles[i];
            stats.push(
                ThreadStats { id: t.id, total_time: t.total_time, total_chunks_rendered: t.total_chunks_rendered },
            );
            i += 1;
        }
        stats
    }
}

proof fn lemma_pixel_of_index(i: int, w: int)
    requires
        0 <= i,
        0 < w,
    ensures
        pixel_offset(w, i % w, i / w) == i,
        0 <= i % w < w,
        0 <= i / w,
{
    vstd::arithmetic::div_mod::lemma_fundamental_div_mod(i, w);
    assert(pixel_offset(w, i % w, i / w) == (i / w) * w + i % w);
    assert((i / w) * w == w * (i / w)) by (nonlinear_arith);
}

proof fn lemma_byte_of_pixel(i: int, j: int)
    requires
        0 <= i,
        4 * i <= j < 4 * i + 4,
    ensures
        j % 4 == j - 4 * i,
{
    vstd::arithmetic::div_mod::lemma_fundamental_div_mod_converse(j, 4, i, j - 4 * i);
}

/// A buffer of the chunk's size with every pixel of the color `rgba`, as a
/// chunk shows while it is rendered: the chunk's pixels are set one by one.
pub fn chunk_buffer(chunk: &RenderChunk, rgba: Rgba) -> (b: RgbaBuffer)
    requires
        chunk.width * chunk.height * 4 <= usize::MAX,
        chunk.width > 0 && chunk.height > 0 ==> {
            &&& chunk.left + chunk.width - 1 <= usize::MAX
            &&& chunk.top + chunk.height - 1 <= usize::MAX
        },
    ensures
        b@.wf(),
        b@.width == chunk.width,
        b@.height == chunk.height,
        forall|k: int| 0 <= k < b@.bytes.len() ==> #[trigger] b@.bytes[k] == rgba@[k % 4],
{
    let w = chunk.width;
    let h = chunk.height;
    let mut buffer = RgbaBuffer::new(w, h);
    assert(w * h <= usize::MAX) by (nonlinear_arith)
        requires
            w * h * 4 <= usize::MAX,
    ;
    let pixels = chunk.iter_pixels();
    let mut i: usize = 0;
    while i < pixels.len()
        invariant
            i <= pixels@.len(),
            pixels@.len() == w * h,
            buffer@.wf(),
            buffer@.width == w,
            buffer@.height == h,
            forall|k: int|
                0 <= k < pixels@.len() ==> {
                    let p = #[trigger] pixels@[k];
                    let x = k % (w as int);
                    let y = k / (w as int);
                    p.chunk_pos@ == seq![x as usize, y as usize]
                },
            forall|j: int| 0 <= j < 4 * i ==> #[trigger] buffer@.bytes[j] == rgba@[j % 4],
        decreases pixels@.len() - i,
    {
        let p = pixels[i];
        assert(w > 0) by (nonlinear_arith)
            requires
                i < w * h,
        ;
        proof {
            lemma_pixel_of_index(i as int, w as int);
            assert(p.chunk_pos@ == seq![(i % w) as usize, (i / w) as usize]);
        }
        let ghost before = buffer@.bytes;
        buffer.put_pixel(p.chunk_pos[0], p.chunk_pos[1], rgba);
        proof {
            assert(p.chunk_pos[0] == i % w && p.chunk_pos[1] == i / w);
            assert(buffer@.bytes == with_pixel(before, w as int, (i % w) as int, (i / w) as int, rgba@));
            assert forall|j: int| 0 <= j < 4 * (i + 1) implies #[trigger] buffer@.bytes[j] == rgba@[j % 4] by {
                if j >= 4 * i {
                    lemma_byte_of_pixel(i as int, j);
                }
            }
        }
        i += 1;
    }
    assert(4 * i == buffer@.bytes.len()) by (nonlinear_arith)
        requires
            i == w * h,
            buffer@.bytes.len() == w * h * 4,
    ;
    buffer
}

} // verus!
