use fast_down_core::layout::Layout;
use fast_down_core::options::DownloadOptions;
use fast_down_core::range::ProgressEntry;
use fast_down_core::slots::{partition, steal, Slot, STEAL_THRESHOLD};
use fast_down_core::worker::{ChunkStep, Step, Worker};
use fast_down_core::writer::{after_attempt, take_record, Attempt};
use std::time::Duration;

fn pe(start: u64, end: u64) -> ProgressEntry {
    ProgressEntry::new(start, end)
}

fn merge(mut v: Vec<ProgressEntry>) -> Vec<ProgressEntry> {
    v.sort_by_key(|e| e.start);
    let mut out: Vec<ProgressEntry> = Vec::new();
    for e in v {
        if let Some(last) = out.last_mut() {
            if last.end >= e.start {
                if e.end > last.end {
                    last.end = e.end;
                }
                continue;
            }
        }
        out.push(e);
    }
    out
}

struct Run {
    read: Vec<(usize, ProgressEntry)>,
    finished: Vec<usize>,
    cancelled: Vec<usize>,
    read_errors: usize,
}

/// Runs the workers one step at a time, round robin, over an in-memory
/// source that hands out chunks of `chunk` bytes. With `flaky`, the first
/// read of every range ends after one chunk.
fn simulate(chunks: Vec<ProgressEntry>, n: usize, chunk: u64, threshold: u64, flaky: bool, cancel_after: Option<usize>) -> Run {
    let opts = DownloadOptions {
        download_chunks: chunks,
        concurrent: n,
        retry_gap: Duration::from_millis(1),
        write_queue_cap: 16,
    };
    let plan = opts.plan().expect("valid options");
    let mut pool = plan.slots.clone();
    let mut workers: Vec<Worker> = (0..n).map(|_| Worker::new()).collect();
    // per worker: the open stream as (remaining bytes of the range, failed already)
    let mut streams: Vec<Option<u64>> = vec![None; n];
    let mut done = vec![false; n];
    let mut seen: std::collections::HashSet<(u64, u64)> = std::collections::HashSet::new();
    let mut run = Run { read: Vec::new(), finished: Vec::new(), cancelled: Vec::new(), read_errors: 0 };
    let mut running = true;
    let mut top = vec![true; n];
    while done.iter().any(|d| !d) {
        for id in 0..n {
            if done[id] {
                continue;
            }
            if let Some(limit) = cancel_after {
                if run.read.len() >= limit {
                    running = false;
                }
            }
            let step = if top[id] {
                top[id] = false;
                workers[id].begin(running, pool[id], &plan.layout)
            } else if let Some(rem) = streams[id] {
                if rem == 0 {
                    streams[id] = None;
                    workers[id].on_stream_end(running)
                } else {
                    let len = rem.min(chunk);
                    pool[id].start += len;
                    match workers[id].on_chunk(running, len, pool[id].end) {
                        ChunkStep::Cancel => Step::Cancel,
                        ChunkStep::Take { span, reload } => {
                            if let Some(s) = span {
                                run.read.push((id, s));
                            }
                            streams[id] = Some(rem - len);
                            if reload {
                                streams[id] = None;
                                top[id] = true;
                            }
                            continue;
                        }
                    }
                }
            } else {
                unreachable!()
            };
            match step {
                Step::Cancel => {
                    run.cancelled.push(id);
                    done[id] = true;
                }
                Step::Steal => match steal(&mut pool, id, threshold) {
                    Some(_) => top[id] = true,
                    None => {
                        run.finished.push(id);
                        done[id] = true;
                    }
                },
                Step::Read(r) => {
                    if flaky && seen.insert((r.start, r.end)) && r.end - r.start > chunk {
                        // the first attempt ends early and reports an error
                        run.read_errors += 1;
                        let len = chunk;
                        pool[id].start += len;
                        if let ChunkStep::Take { span: Some(s), .. } = workers[id].on_chunk(running, len, pool[id].end) {
                            run.read.push((id, s));
                        }
                        match workers[id].on_read_error(running) {
                            Step::Cancel => {
                                run.cancelled.push(id);
                                done[id] = true;
                            }
                            _ => top[id] = true,
                        }
                    } else {
                        streams[id] = Some(r.end - r.start);
                    }
                }
                Step::Reload => top[id] = true,
            }
        }
    }
    run
}

fn spans(run: &Run) -> Vec<ProgressEntry> {
    merge(run.read.iter().map(|(_, s)| *s).collect())
}

#[test]
fn single_worker_single_range() {
    let run = simulate(vec![pe(0, 1024)], 1, 100, STEAL_THRESHOLD, false, None);
    assert_eq!(spans(&run), vec![pe(0, 1024)]);
    let total: u64 = run.read.iter().map(|(_, s)| s.end - s.start).sum();
    assert_eq!(total, 1024);
    assert_eq!(run.finished, vec![0]);
    assert!(run.cancelled.is_empty());
}

#[test]
fn heavy_stealing_covers_input() {
    let run = simulate(vec![pe(0, 3072)], 32, 7, STEAL_THRESHOLD, false, None);
    assert_eq!(spans(&run), vec![pe(0, 3072)]);
    let total: u64 = run.read.iter().map(|(_, s)| s.end - s.start).sum();
    assert_eq!(total, 3072);
    assert_eq!(run.finished.len(), 32);
}

#[test]
fn stealing_with_small_threshold_covers_input_once() {
    let run = simulate(vec![pe(0, 5000), pe(9000, 9100)], 3, 64, 8, false, None);
    assert_eq!(spans(&run), vec![pe(0, 5000), pe(9000, 9100)]);
    let total: u64 = run.read.iter().map(|(_, s)| s.end - s.start).sum();
    assert_eq!(total, 5100);
    assert_eq!(run.finished.len(), 3);
}

#[test]
fn multi_range_skips_gap() {
    let run = simulate(vec![pe(0, 100), pe(500, 600)], 4, 16, STEAL_THRESHOLD, false, None);
    assert_eq!(spans(&run), vec![pe(0, 100), pe(500, 600)]);
    assert!(run.read.iter().all(|(_, s)| s.end <= 100 || s.start >= 500));
    assert_eq!(run.finished.len(), 4);
}

#[test]
fn cancel_early_stops_every_worker() {
    let run = simulate(vec![pe(0, 4096)], 4, 16, STEAL_THRESHOLD, false, Some(1));
    assert_eq!(run.cancelled.len(), 4);
    assert!(run.finished.is_empty());
    assert!(run.read.len() <= 4);
}

#[test]
fn flaky_reader_still_completes() {
    let run = simulate(vec![pe(0, 1024)], 1, 100, STEAL_THRESHOLD, true, None);
    assert!(run.read_errors >= 1);
    assert_eq!(spans(&run), vec![pe(0, 1024)]);
    let total: u64 = run.read.iter().map(|(_, s)| s.end - s.start).sum();
    assert_eq!(total, 1024);
    assert_eq!(run.finished, vec![0]);
}

#[test]
fn empty_input_finishes_every_worker() {
    let run = simulate(vec![], 8, 16, STEAL_THRESHOLD, false, None);
    assert_eq!(run.finished.len(), 8);
    assert!(run.read.is_empty());
}

#[test]
fn two_workers_read_when_each_has_a_threshold() {
    let total = 3 * STEAL_THRESHOLD;
    let run = simulate(vec![pe(0, total)], 3, 4096, STEAL_THRESHOLD, false, None);
    let mut ids: Vec<usize> = run.read.iter().map(|(id, _)| *id).collect();
    ids.sort();
    ids.dedup();
    assert!(ids.len() >= 2);
    assert_eq!(spans(&run), vec![pe(0, total)]);
}

#[test]
fn layout_range_splits_at_chunk_boundaries() {
    let l = Layout::new(&vec![pe(10, 12), pe(20, 25), pe(30, 35)]).unwrap();
    assert_eq!(l.total_len(), 12);
    assert_eq!(l.range(1, 9), vec![pe(11, 12), pe(20, 25), pe(30, 32)]);
    assert_eq!(l.range(2, 7), vec![pe(20, 25)]);
    assert_eq!(l.range(4, 4), vec![]);
    assert_eq!(l.range(0, 12), vec![pe(10, 12), pe(20, 25), pe(30, 35)]);
}

#[test]
fn layout_rejects_bad_chunks() {
    assert!(Layout::new(&vec![pe(5, 5)]).is_none());
    assert!(Layout::new(&vec![pe(0, 10), pe(9, 3)]).is_none());
    assert!(Layout::new(&vec![pe(0, u64::MAX), pe(0, 2)]).is_none());
    assert_eq!(Layout::new(&vec![]).unwrap().total_len(), 0);
}

#[test]
fn options_without_workers_are_refused() {
    let opts = DownloadOptions {
        download_chunks: vec![pe(0, 10)],
        concurrent: 0,
        retry_gap: Duration::from_secs(1),
        write_queue_cap: 1,
    };
    assert!(opts.plan().is_none());
}

#[test]
fn partition_is_even_and_exact() {
    assert_eq!(
        partition(10, 3),
        vec![Slot { start: 0, end: 3 }, Slot { start: 3, end: 6 }, Slot { start: 6, end: 10 }]
    );
    let p = partition(3072, 32);
    assert_eq!(p.len(), 32);
    assert!(p.iter().enumerate().all(|(i, s)| s.start == 96 * i as u64 && s.end == 96 * (i as u64 + 1)));
    let e = partition(0, 8);
    assert!(e.iter().all(|s| s.start == 0 && s.end == 0));
    let big = partition(u64::MAX, 2);
    assert_eq!(big[1].end, u64::MAX);
}

#[test]
fn steal_halves_the_largest_slice() {
    let mut pool = vec![
        Slot { start: 0, end: 40000 },
        Slot { start: 50000, end: 50000 },
        Slot { start: 60000, end: 100000 },
    ];
    assert_eq!(steal(&mut pool, 1, STEAL_THRESHOLD), Some(0));
    assert_eq!(pool[0], Slot { start: 0, end: 20000 });
    assert_eq!(pool[1], Slot { start: 20000, end: 40000 });
    assert_eq!(pool[2], Slot { start: 60000, end: 100000 });
}

#[test]
fn steal_refuses_small_work() {
    let mut pool = vec![Slot { start: 0, end: 100 }, Slot { start: 7, end: 3 }];
    let before = pool.clone();
    assert_eq!(steal(&mut pool, 1, STEAL_THRESHOLD), None);
    assert_eq!(pool, before);
    assert_eq!(pool[1].remain(), 0);
}

#[test]
fn chunk_is_clipped_to_a_cut_slice() {
    let l = Layout::new(&vec![pe(1000, 1100)]).unwrap();
    let mut w = Worker::new();
    assert_eq!(w.begin(true, Slot { start: 0, end: 100 }, &l), Step::Read(pe(1000, 1100)));
    assert_eq!(
        w.on_chunk(true, 30, 100),
        ChunkStep::Take { span: Some(pe(1000, 1030)), reload: false }
    );
    // a thief cut the slice at 50
    assert_eq!(
        w.on_chunk(true, 40, 50),
        ChunkStep::Take { span: Some(pe(1030, 1050)), reload: true }
    );
    assert_eq!(w.on_chunk(true, 10, 50), ChunkStep::Take { span: None, reload: true });
}

#[test]
fn cleared_flag_cancels_at_each_checkpoint() {
    let l = Layout::new(&vec![pe(0, 100), pe(200, 300)]).unwrap();
    let mut w = Worker::new();
    assert_eq!(w.begin(false, Slot { start: 0, end: 200 }, &l), Step::Cancel);
    assert_eq!(w.begin(true, Slot { start: 5, end: 5 }, &l), Step::Steal);
    assert_eq!(w.begin(true, Slot { start: 0, end: 200 }, &l), Step::Read(pe(0, 100)));
    assert_eq!(w.on_chunk(false, 10, 200), ChunkStep::Cancel);
    assert_eq!(w.on_chunk(true, 100, 200), ChunkStep::Take { span: Some(pe(0, 100)), reload: false });
    assert_eq!(w.on_stream_end(false), Step::Cancel);
}

#[test]
fn stream_end_moves_on_or_reloads() {
    let l = Layout::new(&vec![pe(0, 100), pe(200, 300)]).unwrap();
    let mut w = Worker::new();
    assert_eq!(w.begin(true, Slot { start: 50, end: 200 }, &l), Step::Read(pe(50, 100)));
    assert_eq!(w.on_chunk(true, 20, 200), ChunkStep::Take { span: Some(pe(50, 70)), reload: false });
    // a short read reloads
    assert_eq!(w.on_stream_end(true), Step::Reload);
    assert_eq!(w.on_chunk(true, 30, 200), ChunkStep::Take { span: Some(pe(70, 100)), reload: false });
    assert_eq!(w.on_stream_end(true), Step::Read(pe(200, 300)));
    assert_eq!(w.on_chunk(true, 100, 200), ChunkStep::Take { span: Some(pe(200, 300)), reload: true });
    assert_eq!(w.on_stream_end(true), Step::Reload);
}

#[test]
fn read_error_retries_or_cancels() {
    let l = Layout::new(&vec![pe(0, 100)]).unwrap();
    let mut w = Worker::new();
    assert_eq!(w.begin(true, Slot { start: 0, end: 100 }, &l), Step::Read(pe(0, 100)));
    assert_eq!(w.on_chunk(true, 40, 100), ChunkStep::Take { span: Some(pe(0, 40)), reload: false });
    assert_eq!(w.on_read_error(true), Step::Reload);
    assert_eq!(w.on_read_error(false), Step::Cancel);
    assert_eq!(w.begin(true, Slot { start: 40, end: 100 }, &l), Step::Read(pe(40, 100)));
}

#[test]
fn writer_retries_until_stopped() {
    assert!(take_record(true));
    assert!(!take_record(false));
    assert_eq!(after_attempt(true, true), Attempt::Done);
    assert_eq!(after_attempt(false, true), Attempt::Done);
    assert_eq!(after_attempt(true, false), Attempt::Retry);
    assert_eq!(after_attempt(false, false), Attempt::Abandon);
}

#[test]
fn entry_total_saturates() {
    assert_eq!(pe(3, 10).total(), 7);
    assert_eq!(pe(10, 3).total(), 0);
}
