use std::sync::Arc;
use std::time::{Duration, Instant};

use raytracer::render_job::{
    RenderJob, RenderJobUpdateResult, RenderJobWorkerHandle, RenderThread, RenderThreadMessage, RenderWork,
    SendOutcome,
};
use raytracer::{create_render_chunks, RgbaBuffer};

fn job(threads: u32, queue: usize) -> (RenderJob<(), u8>, flume::Receiver<RenderWork<u8>>, flume::Sender<RenderThreadMessage>) {
    let (work_sender, work_receiver) = flume::bounded(queue);
    let (result_sender, result_receiver) = flume::unbounded();
    let thread_handles = (0..threads)
        .map(|id| RenderThread { id, handle: (), total_time: Duration::ZERO, total_chunks_rendered: 0 })
        .collect();
    let handle = RenderJobWorkerHandle {
        cts: cancellation::CancellationTokenSource::new(),
        work_sender,
        result_receiver,
        thread_handles,
    };
    let chunks = create_render_chunks([4, 4], [2, 2]);
    (RenderJob::new(Arc::new(7u8), chunks, Instant::now(), handle), work_receiver, result_sender)
}

#[test]
fn new_job_has_nothing_done() {
    let (job, _, _) = job(2, 2);
    assert_eq!(job.chunks.len(), 4);
    assert_eq!(job.next_chunk_index, 0);
    assert_eq!(job.completed_chunk_count, 0);
    assert_eq!(job.render_time, Duration::ZERO);
    assert!(!job.is_work_completed());
}

#[test]
fn messages_update_the_job() {
    let (mut job, _, _) = job(2, 2);
    let chunk = job.chunks[3];
    job.apply_message(RenderThreadMessage::Ready);
    job.apply_message(RenderThreadMessage::FrameUpdated(chunk, RgbaBuffer::new(2, 2)));
    assert_eq!(job.updates.len(), 1);
    assert_eq!(job.updates[0].0, [chunk.left, chunk.top]);
    job.apply_message(RenderThreadMessage::FrameCompleted(1, Duration::from_millis(15)));
    job.apply_message(RenderThreadMessage::FrameCompleted(1, Duration::from_millis(5)));
    job.apply_message(RenderThreadMessage::Terminated);
    assert_eq!(job.completed_chunk_count, 2);
    let stats = job.thread_stats();
    assert_eq!(stats.len(), 2);
    assert_eq!(stats[0].total_chunks_rendered, 0);
    assert_eq!(stats[1].id, 1);
    assert_eq!(stats[1].total_chunks_rendered, 2);
    assert_eq!(stats[1].total_time, Duration::from_millis(20));
}

#[test]
fn update_hands_out_work_until_the_queue_is_full() {
    let (mut job, work, results) = job(1, 2);
    assert_eq!(job.update(), RenderJobUpdateResult::Updated);
    assert_eq!(job.next_chunk_index, 2);
    let first = work.try_recv().unwrap();
    assert_eq!(first.0, job.chunks[0]);
    assert_eq!(*first.1, 7);
    results.send(RenderThreadMessage::FrameCompleted(0, Duration::from_millis(1))).unwrap();
    assert_eq!(job.update(), RenderJobUpdateResult::Updated);
    assert_eq!(job.next_chunk_index, 3);
    assert_eq!(job.completed_chunk_count, 1);
}

#[test]
fn update_fails_when_no_thread_listens() {
    let (mut job, work, _results) = job(1, 1);
    drop(work);
    assert_eq!(job.update(), RenderJobUpdateResult::ErrorRenderThreadsStopped);
    assert_eq!(job.next_chunk_index, 0);
}

#[test]
fn job_completes_when_every_chunk_is_back() {
    let (mut job, _work, results) = job(1, 8);
    for _ in 0..4 {
        results.send(RenderThreadMessage::FrameCompleted(0, Duration::from_millis(1))).unwrap();
    }
    assert_eq!(job.update(), RenderJobUpdateResult::Updated);
    assert!(job.is_work_completed());
    assert_eq!(job.render_time, Duration::ZERO);
}

#[test]
fn chunk_buffer_is_one_color() {
    let chunk = create_render_chunks([6, 4], [2, 1])[1];
    let buffer = raytracer::chunk_buffer(&chunk, [0, 147, 0, 255]);
    let raw = buffer.get_raw_rgba_data();
    assert_eq!(raw.size, [3, 4]);
    assert_eq!(raw.rgba.len(), 48);
    for px in raw.rgba.chunks(4) {
        assert_eq!(px, &[0, 147, 0, 255]);
    }
}

#[test]
fn next_work_is_the_next_chunk_with_the_render_arguments() {
    let (mut job, _, _) = job(1, 4);
    let first = job.next_work();
    assert_eq!(first.0, job.chunks[0]);
    assert!(Arc::ptr_eq(&first.1, &job.render_args));
    job.next_chunk_index = 2;
    let third = job.next_work();
    assert_eq!(third.0, job.chunks[2]);
}

#[test]
fn send_outcomes_advance_stop_or_fail() {
    let (mut job, _, _) = job(1, 4);
    assert_eq!(job.on_send_outcome(SendOutcome::Sent), None);
    assert_eq!(job.next_chunk_index, 1);
    assert_eq!(job.on_send_outcome(SendOutcome::Full), Some(RenderJobUpdateResult::Updated));
    assert_eq!(job.next_chunk_index, 1);
    assert_eq!(
        job.on_send_outcome(SendOutcome::Disconnected),
        Some(RenderJobUpdateResult::ErrorRenderThreadsStopped)
    );
    assert_eq!(job.next_chunk_index, 1);
}
