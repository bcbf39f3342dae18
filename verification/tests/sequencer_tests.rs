use devimage::args::Args;
use devimage::error::Error;
use devimage::writer::{Sequencer, WriterParams};

fn params(dd: bool, compress: bool, sha256: bool, blake3: bool) -> WriterParams {
    WriterParams {
        dd,
        compress,
        sha256,
        blake3,
        output_file: None,
    }
}

fn run(order: &[u64], blocks: &[Vec<u8>], p: &WriterParams) -> (Vec<u8>, Option<String>) {
    let mut seq = Sequencer::new(p);
    let mut sink = Vec::new();
    for &position in order {
        seq.accept(position, blocks[position as usize].clone(), &mut sink)
            .unwrap();
    }
    let digest = seq.finish().unwrap();
    (sink, digest)
}

fn scenario_blocks() -> Vec<Vec<u8>> {
    vec![vec![0xFF; 4], vec![0x00; 4], vec![0xAA; 4]]
}

fn scenario_output() -> Vec<u8> {
    vec![
        0, 0, 0, 0, 0, 0, 0, 4, 1, 0xFF, 0xFF, 0xFF, 0xFF, // position 0: raw
        0, 0, 0, 0, 0, 0, 0, 0, 0, // position 1: zeros
        0, 0, 0, 0, 0, 0, 0, 4, 1, 0xAA, 0xAA, 0xAA, 0xAA, // position 2: raw
    ]
}

#[test]
fn three_blocks_in_every_order() {
    let blocks = scenario_blocks();
    let p = params(false, false, false, false);
    let orders: [[u64; 3]; 6] = [
        [0, 1, 2],
        [0, 2, 1],
        [1, 0, 2],
        [1, 2, 0],
        [2, 0, 1],
        [2, 1, 0],
    ];
    for order in orders.iter() {
        let (out, digest) = run(order, &blocks, &p);
        assert_eq!(out, scenario_output());
        assert_eq!(digest, None);
    }
}

#[test]
fn blocks_wait_for_their_turn() {
    let blocks = scenario_blocks();
    let mut seq = Sequencer::new(&params(false, false, false, false));
    let mut sink = Vec::new();
    assert_eq!(seq.next_expected(), 0);

    seq.accept(2, blocks[2].clone(), &mut sink).unwrap();
    assert!(sink.is_empty());
    assert_eq!(seq.next_expected(), 0);
    assert_eq!(seq.pending_len(), 1);

    seq.accept(1, blocks[1].clone(), &mut sink).unwrap();
    assert!(sink.is_empty());
    assert_eq!(seq.pending_len(), 2);

    seq.accept(0, blocks[0].clone(), &mut sink).unwrap();
    assert_eq!(sink, scenario_output());
    assert_eq!(seq.next_expected(), 3);
    assert_eq!(seq.pending_len(), 0);
    assert_eq!(seq.finish(), Ok(None));
}

#[test]
fn output_grows_by_whole_records() {
    let blocks = scenario_blocks();
    let mut seq = Sequencer::new(&params(false, false, false, false));
    let mut sink = Vec::new();
    seq.accept(0, blocks[0].clone(), &mut sink).unwrap();
    assert_eq!(sink, scenario_output()[..13].to_vec());
    seq.accept(2, blocks[2].clone(), &mut sink).unwrap();
    assert_eq!(sink.len(), 13);
    seq.accept(1, blocks[1].clone(), &mut sink).unwrap();
    assert_eq!(sink, scenario_output());
}

#[test]
fn a_position_is_taken_once() {
    let mut seq = Sequencer::new(&params(false, false, true, false));
    let mut sink = Vec::new();
    seq.accept(1, vec![1, 1], &mut sink).unwrap();
    // waiting already
    assert_eq!(
        seq.accept(1, vec![2, 2], &mut sink),
        Err(Error::OrderingViolation)
    );
    assert_eq!(seq.pending_len(), 1);
    seq.accept(0, vec![9, 9], &mut sink).unwrap();
    assert_eq!(seq.next_expected(), 2);
    // released already
    assert_eq!(
        seq.accept(0, vec![3, 3], &mut sink),
        Err(Error::OrderingViolation)
    );
    assert_eq!(
        seq.accept(1, vec![3, 3], &mut sink),
        Err(Error::OrderingViolation)
    );
    assert_eq!(
        sink,
        vec![0, 0, 0, 0, 0, 0, 0, 2, 1, 9, 9, 0, 0, 0, 0, 0, 0, 0, 2, 1, 1, 1]
    );
    // the refused blocks were not hashed: the digest is that of 9 9 1 1
    let mut reference = Sequencer::new(&params(false, false, true, false));
    let mut other = Vec::new();
    reference.accept(0, vec![9, 9, 1, 1], &mut other).unwrap();
    assert_eq!(seq.finish(), reference.finish());
}

#[test]
fn a_missing_position_is_found_at_the_end() {
    let mut seq = Sequencer::new(&params(false, false, true, true));
    let mut sink = Vec::new();
    seq.accept(0, vec![1], &mut sink).unwrap();
    seq.accept(2, vec![3], &mut sink).unwrap();
    assert_eq!(seq.pending_len(), 1);
    assert_eq!(seq.finish(), Err(Error::OrderingViolation));
}

#[test]
fn empty_stream() {
    let seq = Sequencer::new(&params(false, false, false, false));
    assert_eq!(seq.finish(), Ok(None));
    let seq = Sequencer::new(&params(false, false, true, false));
    assert_eq!(
        seq.finish(),
        Ok(Some(
            "e3b0c44298fc1c149afbf4c8996fb92427ae41e4649b934ca495991b7852b855".to_string()
        ))
    );
    let seq = Sequencer::new(&params(false, false, false, true));
    assert_eq!(
        seq.finish(),
        Ok(Some(
            "af1349b9f5f9a1a6a0404dea36dcc9499bcb25c9adc112b7cc9a93cae41f3262".to_string()
        ))
    );
}

#[test]
fn digest_is_over_the_source_in_position_order() {
    // "abc" in three blocks
    let blocks = vec![vec![b'a'], vec![b'b'], vec![b'c']];
    let sha = "ba7816bf8f01cfea414140de5dae2223b00361a396177a9cb410ff61f20015ad";
    let b3 = "6437b3ac38465133ffb63b75273a8db548c558465d79db03fd359c6cd5bd9d85";
    let orders: [[u64; 3]; 4] = [[0, 1, 2], [2, 1, 0], [1, 2, 0], [2, 0, 1]];
    for order in orders.iter() {
        for (dd, compress) in [(false, false), (true, false), (false, true)] {
            let (_, digest) = run(order, &blocks, &params(dd, compress, true, false));
            assert_eq!(digest, Some(sha.to_string()));
            let (_, digest) = run(order, &blocks, &params(dd, compress, false, true));
            assert_eq!(digest, Some(b3.to_string()));
            // SHA-256 comes first where both are asked for
            let (_, digest) = run(order, &blocks, &params(dd, compress, true, true));
            assert_eq!(digest, Some(sha.to_string()));
        }
    }
}

#[test]
fn digest_does_not_depend_on_block_size() {
    let source: Vec<u8> = (0..100u8).collect();
    let mut digests = Vec::new();
    for bs in [1usize, 7, 32, 100, 1000] {
        let blocks: Vec<Vec<u8>> = source.chunks(bs).map(|c| c.to_vec()).collect();
        let mut order: Vec<u64> = (0..blocks.len() as u64).collect();
        order.reverse();
        let (out, digest) = run(&order, &blocks, &params(true, false, false, true));
        assert_eq!(out, source);
        digests.push(digest);
    }
    assert!(digests.iter().all(|d| d == &digests[0]));
    assert_eq!(
        digests[0],
        Some(blake3::hash(&source).to_hex().to_string())
    );
}

#[test]
fn direct_mode_copies_the_source() {
    let source: Vec<u8> = (0..=255u8).cycle().take(1000).collect();
    let blocks: Vec<Vec<u8>> = source.chunks(64).map(|c| c.to_vec()).collect();
    assert_eq!(blocks.last().unwrap().len(), 40);
    let mut order: Vec<u64> = (0..blocks.len() as u64).collect();
    order.swap(0, 15);
    order.swap(3, 7);
    order.swap(1, 14);
    let (out, _) = run(&order, &blocks, &params(true, false, false, false));
    assert_eq!(out, source);
    let (out, _) = run(&order, &blocks, &params(true, true, false, false));
    assert_eq!(out, source);
}

#[test]
fn compressed_stream_is_framed_per_block() {
    let blocks = vec![b"hello world".to_vec(), vec![0u8; 64]];
    let (out, _) = run(&[1, 0], &blocks, &params(false, true, false, false));
    let first = lz4::block::compress(&blocks[0], None, false).unwrap();
    let second = lz4::block::compress(&blocks[1], None, false).unwrap();
    let mut expected = (first.len() as u64).to_be_bytes().to_vec();
    expected.push(2);
    expected.extend_from_slice(&first);
    expected.extend_from_slice(&(second.len() as u64).to_be_bytes());
    expected.push(2);
    expected.extend_from_slice(&second);
    assert_eq!(out, expected);
    assert_eq!(first.len(), 12);
}

#[test]
fn writer_params_from_args() {
    let args = Args {
        dev: "/dev/sda".to_string(),
        output: "disk.img".to_string(),
        bs: None,
        threads: None,
        nblocks: None,
        log: None,
        dd: true,
        compress: false,
        sha256: true,
        blake3: false,
        verbose: 0,
    };
    let p = WriterParams::from(&args);
    assert!(p.dd);
    assert!(!p.compress);
    assert!(p.sha256);
    assert!(!p.blake3);
    assert_eq!(p.output_file, Some("disk.img".to_string()));
    let d = WriterParams::default();
    assert!(!d.dd && !d.compress && !d.sha256 && !d.blake3);
    assert_eq!(d.output_file, None);
}

#[test]
fn digest_text_has_64_characters() {
    let blocks = vec![vec![1u8, 2, 3], vec![4u8; 100]];
    for (sha256, blake3) in [(true, false), (false, true), (true, true)] {
        let (_, digest) = run(&[1, 0], &blocks, &params(false, false, sha256, blake3));
        let text = digest.unwrap();
        assert_eq!(text.len(), 64);
        assert!(text
            .chars()
            .all(|c| c.is_ascii_digit() || ('a'..='f').contains(&c)));
    }
}
