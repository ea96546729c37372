use s3_stream_upload::chunker::{ChunkStep, Chunker};
use s3_stream_upload::part::Block;

/// Feeds `input` in reads of at most `read_len` bytes and gathers the blocks.
fn cut(input: &[u8], block_size: usize, read_len: usize) -> Vec<Block> {
    let mut chunker = Chunker::new(block_size);
    let mut blocks = Vec::new();
    let mut pos = 0;
    loop {
        let want = chunker.wanted().min(read_len);
        let end = (pos + want).min(input.len());
        let step = chunker.feed(&input[pos..end]);
        pos = end;
        match step {
            ChunkStep::NeedMore => {}
            ChunkStep::Emit(block) => {
                blocks.push(block);
                if chunker.finished() {
                    break;
                }
            }
            ChunkStep::EndOfStream => break,
            ChunkStep::TooManyParts => panic!("too many parts"),
        }
    }
    assert!(chunker.finished());
    assert_eq!(chunker.emitted() as usize, blocks.len());
    assert_eq!(chunker.feed(&[]), ChunkStep::EndOfStream);
    blocks
}

fn bytes(len: usize) -> Vec<u8> {
    (0..len).map(|i| (i * 7 + 3) as u8).collect()
}

#[test]
fn empty_input_has_no_block() {
    assert_eq!(cut(&[], 4, 4), Vec::new());
}

#[test]
fn input_of_one_block_size_is_one_block() {
    let input = bytes(8);
    assert_eq!(cut(&input, 8, 8), vec![Block { part_number: 1, payload: input.clone() }]);
}

#[test]
fn last_block_holds_the_rest() {
    let input = bytes(10);
    assert_eq!(
        cut(&input, 4, 4),
        vec![
            Block { part_number: 1, payload: input[0..4].to_vec() },
            Block { part_number: 2, payload: input[4..8].to_vec() },
            Block { part_number: 3, payload: input[8..10].to_vec() },
        ]
    );
}

#[test]
fn exact_multiple_has_no_empty_block() {
    let input = bytes(12);
    let blocks = cut(&input, 4, 4);
    assert_eq!(blocks.len(), 3);
    assert!(blocks.iter().all(|b| b.payload.len() == 4));
}

#[test]
fn short_read_is_no_end_of_input() {
    let mut chunker = Chunker::new(4);
    assert_eq!(chunker.wanted(), 4);
    assert_eq!(chunker.feed(&[1]), ChunkStep::NeedMore);
    assert_eq!(chunker.wanted(), 3);
    assert_eq!(chunker.feed(&[2, 3]), ChunkStep::NeedMore);
    assert_eq!(chunker.wanted(), 1);
    assert!(!chunker.finished());
    assert_eq!(
        chunker.feed(&[4]),
        ChunkStep::Emit(Block { part_number: 1, payload: vec![1, 2, 3, 4] })
    );
    assert_eq!(chunker.wanted(), 4);
    assert!(!chunker.finished());
    assert_eq!(chunker.feed(&[5]), ChunkStep::NeedMore);
    assert_eq!(chunker.feed(&[]), ChunkStep::Emit(Block { part_number: 2, payload: vec![5] }));
    assert!(chunker.finished());
    assert_eq!(chunker.feed(&[]), ChunkStep::EndOfStream);
    assert_eq!(chunker.feed(&[]), ChunkStep::EndOfStream);
    assert_eq!(chunker.emitted(), 2);
}

#[test]
fn end_after_full_block_gives_end_of_stream() {
    let mut chunker = Chunker::new(2);
    assert_eq!(
        chunker.feed(&[1, 2]),
        ChunkStep::Emit(Block { part_number: 1, payload: vec![1, 2] })
    );
    assert!(!chunker.finished());
    assert_eq!(chunker.feed(&[]), ChunkStep::EndOfStream);
    assert!(chunker.finished());
    assert_eq!(chunker.emitted(), 1);
}

#[test]
fn nothing_is_taken_after_the_end() {
    let mut chunker = Chunker::new(2);
    assert_eq!(chunker.feed(&[]), ChunkStep::EndOfStream);
    assert_eq!(chunker.feed(&[1, 2]), ChunkStep::EndOfStream);
    assert_eq!(chunker.emitted(), 0);
}

#[test]
fn block_count_and_sizes_for_all_small_inputs() {
    for block_size in 1..=6usize {
        for len in 0..=25usize {
            for read_len in 1..=7usize {
                let input = bytes(len);
                let blocks = cut(&input, block_size, read_len);
                let expected = (len + block_size - 1) / block_size;
                assert_eq!(blocks.len(), expected);
                let mut joined = Vec::new();
                for (i, block) in blocks.iter().enumerate() {
                    assert_eq!(block.part_number, i as i32 + 1);
                    let size = if i + 1 < expected {
                        block_size
                    } else if len % block_size == 0 {
                        block_size
                    } else {
                        len % block_size
                    };
                    assert_eq!(block.payload.len(), size);
                    joined.extend_from_slice(&block.payload);
                }
                assert_eq!(joined, input);
            }
        }
    }
}
