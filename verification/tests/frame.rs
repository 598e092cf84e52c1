use lz4_frame::block::{decompress_into, DecompressError};
use lz4_frame::frame::{BlockMode, Error, FrameDecompressor};
use std::hash::Hasher;
use twox_hash::XxHash32;

fn digest_of(data: &[u8]) -> u32 {
    let mut hasher = XxHash32::with_seed(0);
    hasher.write(data);
    hasher.finish() as u32
}

/// A block that holds `data` as one run of fewer than fifteen literals.
fn literal_block(data: &[u8]) -> Vec<u8> {
    assert!(data.len() < 15);
    let mut block = vec![(data.len() as u8) << 4];
    block.extend_from_slice(data);
    block
}

/// A trailer buffer for a frame of `len` bytes: the checksum stands where the
/// decompressed bytes end.
fn trailer_with(len: usize, checksum: [u8; 4]) -> Vec<u8> {
    let mut trailer = vec![0u8; len];
    trailer.extend_from_slice(&checksum);
    trailer
}

/// Decodes `words` as one literal block each and returns the decompressor and
/// the buffer.
fn decode_words(words: &[&[u8]]) -> (FrameDecompressor, Vec<u8>) {
    let mut frame = FrameDecompressor::new();
    let mut output = vec![0u8; 64];
    for word in words {
        let block = literal_block(word);
        assert_eq!(
            frame.decompress_frame(&block, &mut output, 16, BlockMode::Independent),
            Ok(word.len())
        );
    }
    (frame, output)
}

#[test]
fn foo_bar_baz_concatenate_and_verify() {
    let (mut frame, output) = decode_words(&[b"foo", b"bar", b"baz"]);
    assert_eq!(&output[..9], b"foobarbaz");
    assert!(output[9..].iter().all(|&byte| byte == 0));
    assert_eq!(frame.write_cursor(), 9);
    let trailer = trailer_with(9, digest_of(b"foobarbaz").to_le_bytes());
    assert_eq!(frame.finish_frame(&trailer), Ok(4));
    assert_eq!(frame.write_cursor(), 13);
}

#[test]
fn foo_bar_baz_checksum_is_the_known_digest() {
    assert_eq!(digest_of(b"foobarbaz"), 3167800665);
    let (mut frame, _) = decode_words(&[b"foo", b"bar", b"baz"]);
    let trailer = trailer_with(9, 3167800665u32.to_le_bytes());
    assert_eq!(frame.finish_frame(&trailer), Ok(4));
}

#[test]
fn any_other_trailer_is_a_checksum_mismatch() {
    let good = digest_of(b"foobarbaz").to_le_bytes();
    for position in 0..4 {
        for flip in [0x01u8, 0x80, 0xff] {
            let (mut frame, _) = decode_words(&[b"foo", b"bar", b"baz"]);
            let mut checksum = good;
            checksum[position] ^= flip;
            let trailer = trailer_with(9, checksum);
            assert_eq!(frame.finish_frame(&trailer), Err(Error::ContentChecksumError));
            assert_eq!(frame.write_cursor(), 9);
        }
    }
    let (mut frame, _) = decode_words(&[b"foo", b"bar", b"baz"]);
    let big_endian = digest_of(b"foobarbaz").to_be_bytes();
    assert_eq!(
        frame.finish_frame(&trailer_with(9, big_endian)),
        Err(Error::ContentChecksumError)
    );
}

#[test]
fn checksum_covers_blocks_in_order() {
    let (mut frame, _) = decode_words(&[b"bar", b"foo", b"baz"]);
    let trailer = trailer_with(9, digest_of(b"foobarbaz").to_le_bytes());
    assert_eq!(frame.finish_frame(&trailer), Err(Error::ContentChecksumError));
    let trailer = trailer_with(9, digest_of(b"barfoobaz").to_le_bytes());
    assert_eq!(frame.finish_frame(&trailer), Ok(4));
}

#[test]
fn short_trailer_is_unexpected_eof() {
    for len in 0..4 {
        let (mut frame, _) = decode_words(&[b"foo", b"bar", b"baz"]);
        let trailer = vec![0u8; len];
        assert_eq!(frame.finish_frame(&trailer), Err(Error::UnexpectedEof));
        assert_eq!(frame.write_cursor(), 9);
    }
    let mut fresh = FrameDecompressor::new();
    assert_eq!(fresh.finish_frame(&[0x05, 0x5d, 0xcc]), Err(Error::UnexpectedEof));
}

#[test]
fn empty_frame_has_the_digest_of_nothing() {
    let mut frame = FrameDecompressor::new();
    assert_eq!(frame.write_cursor(), 0);
    assert_eq!(frame.finish_frame(&0x02cc_5d05u32.to_le_bytes()), Ok(4));
    assert_eq!(frame.write_cursor(), 4);
}

#[test]
fn checksum_of_one_block_is_the_known_digest() {
    let data = b"Hello, world!\0";
    let mut frame = FrameDecompressor::new();
    let mut output = vec![0u8; 32];
    assert_eq!(
        frame.decompress_frame(&literal_block(data), &mut output, 16, BlockMode::Independent),
        Ok(14)
    );
    assert_eq!(&output[..14], data);
    let trailer = trailer_with(14, [0x93, 0x7e, 0x5e, 0x9e]);
    assert_eq!(frame.finish_frame(&trailer), Ok(4));
}

#[test]
fn checksum_spans_the_hashers_chunks() {
    let data: Vec<u8> = (0..100).collect();
    let mut frame = FrameDecompressor::new();
    let mut output = vec![0u8; 128];
    for chunk in data.chunks(7) {
        assert_eq!(
            frame.decompress_frame(&literal_block(chunk), &mut output, 8, BlockMode::Independent),
            Ok(chunk.len())
        );
    }
    assert_eq!(&output[..100], &data[..]);
    assert_eq!(frame.write_cursor(), 100);
    let trailer = trailer_with(100, 0x7f89_ba44u32.to_le_bytes());
    assert_eq!(frame.finish_frame(&trailer), Ok(4));
}

#[test]
fn corrupt_block_is_a_decompression_error() {
    let mut frame = FrameDecompressor::new();
    let mut output = vec![0u8; 64];
    assert_eq!(
        frame.decompress_frame(&literal_block(b"foo"), &mut output, 16, BlockMode::Independent),
        Ok(3)
    );
    let mut truncated = literal_block(b"bar");
    truncated.pop();
    assert_eq!(
        frame.decompress_frame(&truncated, &mut output, 16, BlockMode::Independent),
        Err(Error::DecompressionError(DecompressError::LiteralOutOfBounds))
    );
    let mut wrong_token = literal_block(b"bar");
    wrong_token[0] = 0x20;
    assert_eq!(
        frame.decompress_frame(&wrong_token, &mut output, 16, BlockMode::Independent),
        Err(Error::DecompressionError(DecompressError::ExpectedAnotherByte))
    );
    assert_eq!(
        frame.decompress_frame(&[], &mut output, 16, BlockMode::Independent),
        Err(Error::DecompressionError(DecompressError::ExpectedAnotherByte))
    );
    let bad_offset = [0x10, b'x', 0x09, 0x00, 0x00];
    assert_eq!(
        frame.decompress_frame(&bad_offset, &mut output, 16, BlockMode::Independent),
        Err(Error::DecompressionError(DecompressError::OffsetOutOfBounds))
    );
    assert_eq!(
        frame.decompress_frame(&literal_block(b"foobar"), &mut output, 5, BlockMode::Independent),
        Err(Error::DecompressionError(DecompressError::OutputTooSmall))
    );

    assert_eq!(frame.write_cursor(), 3);
    assert_eq!(&output[..3], b"foo");
    let trailer = trailer_with(3, digest_of(b"foo").to_le_bytes());
    assert_eq!(frame.finish_frame(&trailer), Ok(4));
}

#[test]
fn independent_block_cannot_reach_earlier_blocks() {
    let mut frame = FrameDecompressor::new();
    let mut output = vec![0u8; 64];
    assert_eq!(
        frame.decompress_frame(&literal_block(b"abcd"), &mut output, 16, BlockMode::Independent),
        Ok(4)
    );
    let back_reference = [0x00, 0x04, 0x00, 0x00];
    assert_eq!(
        frame.decompress_frame(&back_reference, &mut output, 16, BlockMode::Independent),
        Err(Error::DecompressionError(DecompressError::OffsetOutOfBounds))
    );
    assert_eq!(
        frame.decompress_frame(&back_reference, &mut output, 16, BlockMode::Linked),
        Err(Error::DecompressionError(DecompressError::OffsetOutOfBounds))
    );
}

#[test]
fn linked_block_matches_explicit_dictionary() {
    let previous = b"hello world";
    // Four bytes from eleven back, then "!!", then five more from eleven back.
    let block = [0x00, 0x0b, 0x00, 0x21, b'!', b'!', 0x0b, 0x00, 0x00];

    let mut explicit = vec![0u8; 16];
    assert_eq!(decompress_into(&block, &mut explicit, 0, 16, previous), Ok(11));
    assert_eq!(&explicit[..11], b"hell!!world");

    let mut frame = FrameDecompressor::new();
    let mut output = vec![0u8; 64];
    output[48..59].copy_from_slice(previous);
    frame.set_dict_window(48, 11);
    assert_eq!(
        frame.decompress_frame(&block, &mut output, 16, BlockMode::Linked),
        Ok(11)
    );
    assert_eq!(&output[..11], &explicit[..11]);
    assert_eq!(&output[48..59], previous);
    assert!(output[11..48].iter().all(|&byte| byte == 0));
    assert_eq!(frame.write_cursor(), 11);
    let trailer = trailer_with(11, digest_of(b"hell!!world").to_le_bytes());
    assert_eq!(frame.finish_frame(&trailer), Ok(4));
}

#[test]
fn linked_chain_reproduces_the_data() {
    // The second block is decoded against the output of the first, which
    // the caller has placed in the window.
    let first = literal_block(b"abcdefgh");
    let second = [0x10, b'-', 0x08, 0x00, 0x00];

    let mut frame = FrameDecompressor::new();
    let mut output = vec![0u8; 64];
    assert_eq!(frame.decompress_frame(&first, &mut output, 16, BlockMode::Linked), Ok(8));
    output.copy_within(0..8, 56);
    frame.set_dict_window(56, 8);
    assert_eq!(frame.decompress_frame(&second, &mut output, 16, BlockMode::Linked), Ok(5));
    assert_eq!(&output[..13], b"abcdefgh-bcde");

    let mut alone = vec![0u8; 16];
    assert_eq!(decompress_into(&second, &mut alone, 0, 16, b"abcdefgh"), Ok(5));
    assert_eq!(&alone[..5], &output[8..13]);

    let trailer = trailer_with(13, digest_of(b"abcdefgh-bcde").to_le_bytes());
    assert_eq!(frame.finish_frame(&trailer), Ok(4));
}

#[test]
fn linked_block_may_fill_the_room_up_to_the_window() {
    let block = literal_block(b"0123456789");
    let mut frame = FrameDecompressor::new();
    let mut output = vec![0u8; 32];
    output[20..24].copy_from_slice(b"dict");
    frame.set_dict_window(20, 4);
    assert_eq!(frame.decompress_frame(&block, &mut output, 4, BlockMode::Linked), Ok(10));
    assert_eq!(&output[..10], b"0123456789");

    let mut tight = FrameDecompressor::new();
    tight.set_dict_window(8, 4);
    assert_eq!(
        tight.decompress_frame(&block, &mut output, 4, BlockMode::Linked),
        Err(Error::DecompressionError(DecompressError::OutputTooSmall))
    );
}

#[test]
fn independent_mode_ignores_the_window() {
    let block = [0x00, 0x04, 0x00, 0x00];
    let mut frame = FrameDecompressor::new();
    let mut output = vec![0u8; 32];
    output[16..20].copy_from_slice(b"dict");
    frame.set_dict_window(16, 4);
    assert_eq!(
        frame.decompress_frame(&block, &mut output, 8, BlockMode::Independent),
        Err(Error::DecompressionError(DecompressError::OffsetOutOfBounds))
    );
    assert_eq!(frame.decompress_frame(&block, &mut output, 8, BlockMode::Linked), Ok(4));
    assert_eq!(&output[..4], b"dict");
}

#[test]
fn linked_mode_without_a_window_decodes_alone() {
    let mut frame = FrameDecompressor::new();
    let mut output = vec![0u8; 8];
    frame.set_dict_window(4, 0);
    assert_eq!(
        frame.decompress_frame(&literal_block(b"abcdef"), &mut output, 8, BlockMode::Linked),
        Ok(6)
    );
    assert_eq!(&output[..6], b"abcdef");
}

#[test]
fn write_cursor_is_the_sum_of_the_counts() {
    let mut frame = FrameDecompressor::new();
    let mut output = vec![0u8; 128];
    let blocks: [&[u8]; 4] = [
        &[0x30, b'a', b'b', b'c'],
        &[0x00],
        &[0x1f, b'z', 0x01, 0x00, 0x05, 0x00],
        &[0x32, b'x', b'y', b'z', 0x03, 0x00, 0x00],
    ];
    let mut sum = 0;
    for block in blocks {
        let before = frame.write_cursor();
        let count = frame
            .decompress_frame(block, &mut output, 32, BlockMode::Independent)
            .unwrap();
        assert_eq!(frame.write_cursor(), before + count);
        sum += count;
    }
    assert_eq!(sum, 3 + 0 + 25 + 9);
    assert_eq!(frame.write_cursor(), sum);
    let mut expected = b"abc".to_vec();
    expected.extend_from_slice(&[b'z'; 25]);
    expected.extend_from_slice(b"xyzxyzxyz");
    assert_eq!(&output[..sum], &expected[..]);
}

#[test]
fn fresh_decompressors_agree() {
    let blocks: [&[u8]; 3] = [
        &[0x30, b'f', b'o', b'o'],
        &[0x1f, b'z', 0x01, 0x00, 0x05, 0x00],
        &[0x30, b'b', b'a'],
    ];
    let trailer = trailer_with(28, [1, 2, 3, 4]);
    let mut results = Vec::new();
    for _ in 0..2 {
        let mut frame = FrameDecompressor::new();
        let mut output = vec![0u8; 64];
        let mut outcomes = Vec::new();
        for block in blocks {
            outcomes.push(frame.decompress_frame(block, &mut output, 32, BlockMode::Independent));
        }
        let finished = frame.finish_frame(&trailer);
        results.push((outcomes, finished, frame.write_cursor(), output));
    }
    assert_eq!(results[0], results[1]);
    assert_eq!(
        results[0].0,
        vec![
            Ok(3),
            Ok(25),
            Err(Error::DecompressionError(DecompressError::LiteralOutOfBounds))
        ]
    );
    assert_eq!(results[0].1, Err(Error::ContentChecksumError));
}

#[test]
fn block_fits_tells_when_a_block_may_be_decoded() {
    let mut frame = FrameDecompressor::new();
    assert!(frame.block_fits(16, 16, BlockMode::Independent));
    assert!(!frame.block_fits(15, 16, BlockMode::Independent));
    assert!(frame.block_fits(0, 0, BlockMode::Linked));
    assert!(frame.block_fits(usize::MAX, usize::MAX, BlockMode::Independent));

    let mut output = vec![0u8; 32];
    frame
        .decompress_frame(&literal_block(b"abcd"), &mut output, 16, BlockMode::Independent)
        .unwrap();
    assert!(frame.block_fits(20, 16, BlockMode::Independent));
    assert!(!frame.block_fits(19, 16, BlockMode::Independent));
    assert!(!frame.block_fits(3, 0, BlockMode::Independent));
    assert!(!frame.block_fits(usize::MAX, usize::MAX, BlockMode::Independent));

    frame.set_dict_window(20, 8);
    assert!(frame.block_fits(28, 16, BlockMode::Linked));
    assert!(!frame.block_fits(27, 16, BlockMode::Linked));
    assert!(!frame.block_fits(28, 17, BlockMode::Linked));
    assert!(frame.block_fits(21, 17, BlockMode::Independent));
    frame.set_dict_window(2, 1);
    assert!(!frame.block_fits(28, 0, BlockMode::Linked));
}
