use devimage::aligned_buffer::{AlignedBuffer, BufferPool, BUFFER_ALIGN};
use devimage::args::{
    block_size_from, count_digits, get_args, log_level, read_size, worker_threads, Args, LogLevel,
    DEFAULT_BLOCK_SIZE,
};
use devimage::cursor::{claim, new_cursor};
use devimage::error::Error;
use devimage::reader::{copy_out, decide, Completion, RunContext, Slot, Worker};
use devimage::writer::{Sequencer, WriterParams};
use std::sync::atomic::Ordering;

fn ctx(block_size: usize, num_buffers: usize) -> RunContext {
    RunContext {
        nb_threads: 1,
        thread_id: 0,
        block_size,
        num_buffers,
    }
}

#[test]
fn cursor_hands_out_every_offset_once() {
    let cursor = new_cursor();
    assert_eq!(claim(&cursor, 4096), 0);
    assert_eq!(claim(&cursor, 4096), 4096);
    assert_eq!(claim(&cursor, 4096), 8192);
    assert_eq!(cursor.load(Ordering::Relaxed), 12288);
}

#[test]
fn decisions() {
    // a full block goes on
    assert_eq!(
        decide(8192, 4096, 4096),
        Completion {
            position: Some(2),
            resubmit: true
        }
    );
    // a short block is sent and ends the slot
    assert_eq!(
        decide(8192, 100, 4096),
        Completion {
            position: Some(2),
            resubmit: false
        }
    );
    // nothing read: nothing sent
    assert_eq!(
        decide(8192, 0, 4096),
        Completion {
            position: None,
            resubmit: false
        }
    );
    assert_eq!(decide(0, 1, 1).position, Some(0));
    assert_eq!(decide(32768 * 5, 32768, 32768).position, Some(5));
}

#[test]
fn window_accounting() {
    let mut w = Worker::new(&ctx(4, 2));
    assert_eq!(w.num_buffers(), 2);
    assert!(w.is_idle());
    assert_eq!(w.slot(0), Some(Slot::Free));
    assert_eq!(w.slot(2), None);

    assert_eq!(w.submit(0, 0), Ok(()));
    assert_eq!(w.slot(0), Some(Slot::InFlight(0)));
    assert!(!w.is_idle());
    // the buffer is with the read
    assert_eq!(w.submit(0, 4), Err(Error::ExhaustedPool));
    assert_eq!(w.slot(0), Some(Slot::InFlight(0)));
    // no such slot
    assert_eq!(w.submit(2, 4), Err(Error::ExhaustedPool));
    assert_eq!(w.submit(1, 4), Ok(()));

    // nothing in flight there
    assert_eq!(w.complete(5, 4), None);

    let c = w.complete(1, 4).unwrap();
    assert_eq!(c.position, Some(1));
    assert!(c.resubmit);
    assert_eq!(w.slot(1), Some(Slot::Free));
    assert_eq!(w.complete(1, 4), None);
    assert_eq!(w.submit(1, 8), Ok(()));

    let c = w.complete(0, 4).unwrap();
    assert_eq!(c.position, Some(0));
    assert_eq!(w.submit(0, 12), Ok(()));

    // short final block at offset 8
    let c = w.complete(1, 2).unwrap();
    assert_eq!(
        c,
        Completion {
            position: Some(2),
            resubmit: false
        }
    );
    assert_eq!(w.slot(1), Some(Slot::Retired));
    assert_eq!(w.submit(1, 16), Err(Error::ExhaustedPool));
    assert!(!w.is_idle());

    // behind the end
    let c = w.complete(0, 0).unwrap();
    assert_eq!(
        c,
        Completion {
            position: None,
            resubmit: false
        }
    );
    assert_eq!(w.slot(0), Some(Slot::Retired));
    assert!(w.is_idle());
}

fn read_at(source: &[u8], offset: u64, block_size: usize) -> Vec<u8> {
    let start = (offset as usize).min(source.len());
    let end = (start + block_size).min(source.len());
    source[start..end].to_vec()
}

// Runs `workers` workers of `num_buffers` slots each over `source`. The
// slot whose read completes next is picked by stepping through the slots
// with stride `stride`.
fn image(
    source: &[u8],
    block_size: usize,
    workers: usize,
    num_buffers: usize,
    stride: usize,
    params: &WriterParams,
) -> (Vec<u64>, Vec<u8>, Option<String>) {
    let cursor = new_cursor();
    let mut fleet: Vec<Worker> = (0..workers)
        .map(|_| Worker::new(&ctx(block_size, num_buffers)))
        .collect();
    for w in fleet.iter_mut() {
        for slot in 0..num_buffers {
            w.claim_and_submit(slot, &cursor).unwrap();
        }
    }
    let mut seq = Sequencer::new(params);
    let mut sink = Vec::new();
    let mut sent = Vec::new();
    let lanes = workers * num_buffers;
    let mut at = 0usize;
    while fleet.iter().any(|w| !w.is_idle()) {
        at = (at + stride) % lanes;
        let (w, slot) = (at / num_buffers, at % num_buffers);
        let offset = match fleet[w].slot(slot) {
            Some(Slot::InFlight(offset)) => offset,
            _ => continue,
        };
        let bytes = read_at(source, offset, block_size);
        let c = fleet[w].complete(slot, bytes.len()).unwrap();
        if let Some(position) = c.position {
            sent.push(position);
            seq.accept(position, bytes, &mut sink).unwrap();
        }
        if c.resubmit {
            fleet[w].claim_and_submit(slot, &cursor).unwrap();
        }
    }
    (sent, sink, seq.finish().unwrap())
}

#[test]
fn every_position_is_sent_once() {
    let source: Vec<u8> = (0..=255u8).cycle().take(1003).collect();
    for (workers, num_buffers, stride) in [(1, 1, 1), (1, 4, 3), (2, 2, 1), (3, 4, 5), (4, 8, 7)]
    {
        for bs in [1usize, 10, 64, 1003, 4096] {
            let p = WriterParams {
                dd: true,
                compress: false,
                sha256: true,
                blake3: false,
                output_file: None,
            };
            let (mut sent, out, digest) = image(&source, bs, workers, num_buffers, stride, &p);
            let count = (source.len() + bs - 1) / bs;
            sent.sort();
            assert_eq!(sent, (0..count as u64).collect::<Vec<u64>>());
            assert_eq!(out, source);
            let (_, _, reference) = image(&source, 1003, 1, 1, 1, &p);
            assert_eq!(digest, reference);
        }
    }
}

#[test]
fn three_blocks_whatever_the_workers() {
    let source = [
        0xFFu8, 0xFF, 0xFF, 0xFF, 0, 0, 0, 0, 0xAA, 0xAA, 0xAA, 0xAA,
    ];
    let expected = vec![
        0u8, 0, 0, 0, 0, 0, 0, 4, 1, 0xFF, 0xFF, 0xFF, 0xFF, 0, 0, 0, 0, 0, 0, 0, 0, 0, 0, 0, 0,
        0, 0, 0, 0, 4, 1, 0xAA, 0xAA, 0xAA, 0xAA,
    ];
    for (workers, num_buffers, stride) in [(1, 1, 1), (1, 3, 2), (2, 2, 3), (3, 1, 2), (4, 4, 5)]
    {
        let (mut sent, out, digest) = image(
            &source,
            4,
            workers,
            num_buffers,
            stride,
            &WriterParams::default(),
        );
        sent.sort();
        assert_eq!(sent, vec![0, 1, 2]);
        assert_eq!(out, expected);
        assert_eq!(digest, None);
    }
}

#[test]
fn short_final_block() {
    // 10 bytes in blocks of 4: positions 0, 1 and a last one of 2 bytes
    let source: Vec<u8> = (1..=10u8).collect();
    let (mut sent, out, _) = image(&source, 4, 2, 2, 1, &WriterParams::default());
    sent.sort();
    assert_eq!(sent, vec![0, 1, 2]);
    assert_eq!(
        out,
        vec![
            0, 0, 0, 0, 0, 0, 0, 4, 1, 1, 2, 3, 4, 0, 0, 0, 0, 0, 0, 0, 4, 1, 5, 6, 7, 8, 0, 0,
            0, 0, 0, 0, 0, 2, 1, 9, 10
        ]
    );
    // an empty source ends at once
    let (sent, out, _) = image(&[], 4, 2, 2, 1, &WriterParams::default());
    assert!(sent.is_empty());
    assert!(out.is_empty());
}

#[test]
fn copy_out_takes_the_bytes_read() {
    let buffer = [1u8, 2, 3, 4, 5];
    assert_eq!(copy_out(&buffer, 3), vec![1, 2, 3]);
    assert_eq!(copy_out(&buffer, 0), Vec::<u8>::new());
    assert_eq!(copy_out(&buffer, 5), buffer.to_vec());
}

#[test]
fn aligned_buffers() {
    let mut b = AlignedBuffer::new(8192);
    assert_eq!(b.len(), 8192);
    assert!(b.is_page_aligned());
    assert!(b.as_slice().iter().all(|x| *x == 0));
    assert_eq!(b.as_slice().as_ptr() as usize % BUFFER_ALIGN, 0);
    b.as_mut_slice()[..3].copy_from_slice(&[7, 8, 9]);
    assert_eq!(b.copy_out(4), vec![7, 8, 9, 0]);
    assert_eq!(b.len(), 8192);
    assert_eq!(AlignedBuffer::new(0).len(), 0);
}

#[test]
fn pool_slots_are_exclusive() {
    let mut pool = BufferPool::new(512, 3);
    assert_eq!(pool.count(), 3);
    assert!(pool.is_available(0));
    assert!(!pool.is_available(3));

    let mut buffer = pool.check_out(1).unwrap();
    assert_eq!(buffer.len(), 512);
    assert!(buffer.is_page_aligned());
    assert!(!pool.is_available(1));
    // checked out already
    assert_eq!(pool.check_out(1).err(), Some(Error::ExhaustedPool));
    // no such slot
    assert_eq!(pool.check_out(3).err(), Some(Error::ExhaustedPool));
    assert!(pool.is_available(0) && pool.is_available(2));

    buffer.as_mut_slice()[0] = 42;
    // wrong slots
    let other = pool.check_out(2).unwrap();
    assert_eq!(pool.give_back(0, other), Err(Error::ExhaustedPool));
    assert_eq!(
        pool.give_back(7, AlignedBuffer::new(512)),
        Err(Error::ExhaustedPool)
    );
    // wrong size
    assert_eq!(
        pool.give_back(2, AlignedBuffer::new(100)),
        Err(Error::ExhaustedPool)
    );
    assert!(!pool.is_available(2));

    assert_eq!(pool.give_back(1, buffer), Ok(()));
    assert!(pool.is_available(1));
    // the same buffer comes out again
    let again = pool.check_out(1).unwrap();
    assert_eq!(again.as_slice()[0], 42);
}

fn args(bs: Option<&str>, threads: Option<usize>, verbose: u8) -> Args {
    Args {
        dev: "in".to_string(),
        output: "out".to_string(),
        bs: bs.map(|s| s.to_string()),
        threads,
        nblocks: Some(3),
        log: None,
        dd: false,
        compress: true,
        sha256: false,
        blake3: true,
        verbose,
    }
}

#[test]
fn block_size_option() {
    assert_eq!(DEFAULT_BLOCK_SIZE, 32768);
    assert_eq!(args(None, None, 0).block_size(), 32768);
    assert_eq!(args(Some("4096"), None, 0).block_size(), 4096);
    assert_eq!(args(Some("64K"), None, 0).block_size(), 65536);
    assert_eq!(args(Some("64KB"), None, 0).block_size(), 65536);
    assert_eq!(args(Some("1 MiB"), None, 0).block_size(), 1048576);
    assert_eq!(args(Some("1 MB"), None, 0).block_size(), 1048576);
    assert_eq!(args(Some("nonsense"), None, 0).block_size(), 32768);
    assert_eq!(args(Some(""), None, 0).block_size(), 32768);
    assert_eq!(args(Some("99999999999 EB"), None, 0).block_size(), 32768);
}

#[test]
fn verbosity() {
    assert_eq!(log_level(0), LogLevel::Warn);
    assert_eq!(log_level(1), LogLevel::Info);
    assert_eq!(log_level(2), LogLevel::Debug);
    assert_eq!(log_level(3), LogLevel::Trace);
    assert_eq!(log_level(255), LogLevel::Trace);
}

#[test]
fn threads_default_to_the_processors() {
    assert_eq!(worker_threads(Some(3), 8), 3);
    assert_eq!(worker_threads(None, 8), 8);

    let (a, level) = get_args(args(Some("8K"), Some(5), 2));
    assert_eq!(a.threads, Some(5));
    assert_eq!(level, LogLevel::Debug);
    assert_eq!(a.bs, Some("8K".to_string()));
    assert_eq!(a.nblocks, Some(3));
    assert!(a.compress && a.blake3 && !a.dd && !a.sha256);

    let (a, level) = get_args(args(None, None, 0));
    assert!(a.threads.unwrap() >= 1);
    assert_eq!(a.threads, Some(num_cpus::get()));
    assert_eq!(level, LogLevel::Warn);
    assert_eq!(a.dev, "in");
    assert_eq!(a.output, "out");
}

#[test]
fn block_size_with_too_many_digits() {
    // 21 digits: one more than a 64-bit number can have
    assert_eq!(
        args(Some("184467440737095516155"), None, 0).block_size(),
        32768
    );
    assert_eq!(read_size("184467440737095516155"), None);
    assert_eq!(read_size("000000000000000000004096"), None);
    assert_eq!(read_size("0.000000000000000000001 EB"), None);
    // 20 digits are read
    assert_eq!(read_size("18446744073709551615"), Some(u64::MAX));
    assert_eq!(read_size("18446744073709551616"), None);
    assert_eq!(read_size("00000000000000004096"), Some(4096));
    assert_eq!(read_size("18_446_744_073_709_551_615"), Some(u64::MAX));
    assert_eq!(read_size("64K"), Some(65536));
    assert_eq!(read_size("1.5 KiB"), Some(1536));
    assert_eq!(read_size("2e3"), Some(2000));
    assert_eq!(read_size("K"), None);
    assert_eq!(read_size(""), None);

    assert_eq!(count_digits(b""), 0);
    assert_eq!(count_digits(b"12 KiB"), 2);
    assert_eq!(count_digits(b"/0123456789:"), 10);
    assert_eq!(count_digits("١٢٣".as_bytes()), 0);

    assert_eq!(block_size_from(None), 32768);
    assert_eq!(block_size_from(Some(0)), 0);
    assert_eq!(block_size_from(Some(4096)), 4096);
    assert_eq!(block_size_from(Some(u64::MAX)), u64::MAX as usize);
}

#[test]
fn claims_of_a_worker() {
    // 10 bytes in blocks of 4, one worker with two slots: three claims for
    // the two full blocks and their slots, then one that finds the end
    let source: Vec<u8> = (1..=10u8).collect();
    let cursor = new_cursor();
    let mut w = Worker::new(&ctx(4, 2));
    let mut claims = 0;
    let mut full = 0;
    for slot in 0..2 {
        w.claim_and_submit(slot, &cursor).unwrap();
        claims += 1;
    }
    while !w.is_idle() {
        for slot in 0..2 {
            if let Some(Slot::InFlight(offset)) = w.slot(slot) {
                let n = read_at(&source, offset, 4).len();
                let c = w.complete(slot, n).unwrap();
                if c.resubmit {
                    full += 1;
                    w.claim_and_submit(slot, &cursor).unwrap();
                    claims += 1;
                } else {
                    // a retired slot claims nothing
                    let before = cursor.load(Ordering::Relaxed);
                    assert_eq!(
                        w.claim_and_submit(slot, &cursor),
                        Err(Error::ExhaustedPool)
                    );
                    assert_eq!(cursor.load(Ordering::Relaxed), before);
                }
            }
        }
    }
    assert_eq!(full, 2);
    assert_eq!(claims, 2 + full);
    assert_eq!(cursor.load(Ordering::Relaxed), 4 * claims);
}
