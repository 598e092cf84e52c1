//! A frame as a whole: what holds when a run of blocks is decoded one after
//! another and the trailer is checked at the end.
//!
//! [`decode_all`] folds the contract of
//! [`FrameDecompressor::decompress_frame`](crate::frame::FrameDecompressor::decompress_frame)
//! over a sequence of blocks. The proofs below are about that fold and about
//! the check of the trailer.
use crate::block::{
    decode_block, lemma_capacity_of_block, lemma_decoded_extends, overwritten, DecompressError,
};
use crate::frame::{
    BlockMode, Error, FrameDecompressor, FrameState, CHECKSUM_WIDTH, CONTENT_SEED,
};
use crate::hash::{le_bytes, xxh32};
use vstd::prelude::*;

verus! {

/// How a run of blocks ended.
pub struct Run {
    /// The decompressor after the last block.
    pub state: FrameState,
    /// The output buffer after the last block.
    pub output: Seq<u8>,
    /// The number of bytes that each block decoded to, in order.
    pub counts: Seq<nat>,
}

/// Decoding `blocks` in order, each into the buffer that the one before left,
/// all with one `block_size` and `mode` and with the dictionary window left
/// where it is. The first block that is rejected ends the run with its error.
pub open spec fn decode_all(
    state: FrameState,
    output: Seq<u8>,
    blocks: Seq<Seq<u8>>,
    block_size: nat,
    mode: BlockMode,
) -> Result<Run, Error>
    decreases blocks.len(),
{
    if blocks.len() == 0 {
        Ok(Run { state, output, counts: Seq::empty() })
    } else {
        match state.block_outcome(blocks.first(), output, block_size, mode) {
            Err(e) => Err(Error::DecompressionError(e)),
            Ok(bytes) => match decode_all(
                state.after_block(bytes),
                overwritten(output, state.cursor as int, bytes),
                blocks.drop_first(),
                block_size,
                mode,
            ) {
                Err(e) => Err(e),
                Ok(rest) => Ok(Run { counts: seq![bytes.len()] + rest.counts, ..rest }),
            },
        }
    }
}

/// The sum of `counts`.
pub open spec fn total(counts: Seq<nat>) -> nat
    decreases counts.len(),
{
    if counts.len() == 0 {
        0
    } else {
        counts.first() + total(counts.drop_first())
    }
}

/// The chunks joined in order.
pub open spec fn joined(chunks: Seq<Seq<u8>>) -> Seq<u8>
    decreases chunks.len(),
{
    if chunks.len() == 0 {
        Seq::empty()
    } else {
        chunks.first() + joined(chunks.drop_first())
    }
}

/// Whether the buffer has room for every block of a run that decodes to
/// `chunks`: each block fits where the cursor stands when its turn comes, and
/// each chunk fits into the region that its block may write.
pub open spec fn all_fit(
    state: FrameState,
    output_len: nat,
    chunks: Seq<Seq<u8>>,
    block_size: nat,
    mode: BlockMode,
) -> bool
    decreases chunks.len(),
{
    chunks.len() > 0 ==> {
        &&& state.block_fits(output_len, block_size, mode)
        &&& state.cursor + chunks.first().len() <= state.region_end(block_size, mode)
        &&& all_fit(
            state.after_block(chunks.first()),
            output_len,
            chunks.drop_first(),
            block_size,
            mode,
        )
    }
}

/// Whether the caller kept its side of the contract all through a run: the
/// cursor starts within the buffer and each block fits when its turn comes.
pub open spec fn fits_throughout(
    state: FrameState,
    output: Seq<u8>,
    blocks: Seq<Seq<u8>>,
    block_size: nat,
    mode: BlockMode,
) -> bool
    decreases blocks.len(),
{
    if blocks.len() == 0 {
        state.cursor <= output.len()
    } else {
        &&& state.block_fits(output.len(), block_size, mode)
        &&& state.block_outcome(blocks.first(), output, block_size, mode) matches Ok(bytes)
            ==> fits_throughout(
            state.after_block(bytes),
            overwritten(output, state.cursor as int, bytes),
            blocks.drop_first(),
            block_size,
            mode,
        )
    }
}

/// After a run of blocks the write cursor has advanced by the sum of the
/// byte counts that the blocks reported, one count for each block, and the
/// dictionary window is where it was.
pub proof fn lemma_cursor_advances_by_counts(
    state: FrameState,
    output: Seq<u8>,
    blocks: Seq<Seq<u8>>,
    block_size: nat,
    mode: BlockMode,
)
    ensures
        decode_all(state, output, blocks, block_size, mode) matches Ok(run) ==> {
            &&& run.counts.len() == blocks.len()
            &&& run.state.cursor == state.cursor + total(run.counts)
            &&& run.state.dict_offset == state.dict_offset
            &&& run.state.dict_len == state.dict_len
        },
    decreases blocks.len(),
{
    if blocks.len() > 0 {
        let first = state.block_outcome(blocks.first(), output, block_size, mode);
        if first is Ok {
            let bytes = first->Ok_0;
            let after = state.after_block(bytes);
            let buffer = overwritten(output, state.cursor as int, bytes);
            lemma_cursor_advances_by_counts(after, buffer, blocks.drop_first(), block_size, mode);
            let rest = decode_all(after, buffer, blocks.drop_first(), block_size, mode);
            if rest is Ok {
                let counts = seq![bytes.len()] + rest->Ok_0.counts;
                assert(counts.drop_first() =~= rest->Ok_0.counts);
            }
        }
    }
}

/// Writing `more` right behind `bytes` is writing the two as one run.
proof fn lemma_overwritten_twice(buf: Seq<u8>, at: int, bytes: Seq<u8>, more: Seq<u8>)
    requires
        0 <= at,
        at + bytes.len() + more.len() <= buf.len(),
    ensures
        overwritten(overwritten(buf, at, bytes), at + bytes.len(), more) == overwritten(
            buf,
            at,
            bytes + more,
        ),
{
    assert(overwritten(overwritten(buf, at, bytes), at + bytes.len(), more) =~= overwritten(
        buf,
        at,
        bytes + more,
    ));
}

/// Two blocks in a row leave the state that one block with the bytes of
/// both would leave.
proof fn lemma_after_block_twice(state: FrameState, bytes: Seq<u8>, more: Seq<u8>)
    ensures
        state.after_block(bytes).after_block(more) == state.after_block(bytes + more),
{
    assert((state.hashed + bytes) + more =~= state.hashed + (bytes + more));
}

/// A block that fits does not write into the dictionary window: the next
/// block is decoded against the same dictionary.
proof fn lemma_dict_survives(
    state: FrameState,
    output: Seq<u8>,
    bytes: Seq<u8>,
    block_size: nat,
    mode: BlockMode,
)
    requires
        state.block_fits(output.len(), block_size, mode),
        state.cursor + bytes.len() <= state.region_end(block_size, mode),
    ensures
        state.after_block(bytes).dict(overwritten(output, state.cursor as int, bytes), mode)
            == state.dict(output, mode),
        overwritten(output, state.cursor as int, bytes).len() == output.len(),
{
    assert(state.after_block(bytes).dict(overwritten(output, state.cursor as int, bytes), mode)
        =~= state.dict(output, mode));
}

/// The content checksum covers exactly what was written: after a run of
/// blocks, the bytes between where the cursor stood and where it stands are
/// the bytes that the digest has taken in, in order, and the rest of the
/// buffer is as it was.
pub proof fn lemma_digest_covers_output(
    state: FrameState,
    output: Seq<u8>,
    blocks: Seq<Seq<u8>>,
    block_size: nat,
    mode: BlockMode,
)
    requires
        fits_throughout(state, output, blocks, block_size, mode),
    ensures
        decode_all(state, output, blocks, block_size, mode) matches Ok(run) ==> {
            let written = run.output.subrange(state.cursor as int, run.state.cursor as int);
            &&& state.cursor <= run.state.cursor <= output.len()
            &&& run.state.hashed == state.hashed + written
            &&& run.output == overwritten(output, state.cursor as int, written)
        },
    decreases blocks.len(),
{
    if blocks.len() == 0 {
        assert(state.hashed + output.subrange(state.cursor as int, state.cursor as int)
            =~= state.hashed);
        assert(overwritten(
            output,
            state.cursor as int,
            output.subrange(state.cursor as int, state.cursor as int),
        ) =~= output);
    } else {
        let first = state.block_outcome(blocks.first(), output, block_size, mode);
        if first is Ok {
            let bytes = first->Ok_0;
            let after = state.after_block(bytes);
            let buffer = overwritten(output, state.cursor as int, bytes);
            lemma_decoded_extends(
                blocks.first(),
                0,
                state.dict(output, mode),
                Seq::empty(),
                state.region_end(block_size, mode) - state.cursor,
            );
            lemma_digest_covers_output(after, buffer, blocks.drop_first(), block_size, mode);
            let rest = decode_all(after, buffer, blocks.drop_first(), block_size, mode);
            if rest is Ok {
                let run = rest->Ok_0;
                let later = run.output.subrange(after.cursor as int, run.state.cursor as int);
                lemma_after_block_twice(state, bytes, later);
                lemma_overwritten_twice(output, state.cursor as int, bytes, later);
                assert(run.output.subrange(state.cursor as int, run.state.cursor as int)
                    =~= bytes + later);
            }
        }
    }
}

/// Blocks that encode the chunks of some data decode to that data: if every
/// block decodes to its chunk against the dictionary in force, and the buffer
/// has room for all of them, then the run succeeds, the chunks stand joined in
/// the buffer from where the cursor stood, the content checksum has taken in
/// exactly those bytes, and each block reports the length of its chunk.
pub proof fn lemma_valid_blocks_decode(
    state: FrameState,
    output: Seq<u8>,
    blocks: Seq<Seq<u8>>,
    chunks: Seq<Seq<u8>>,
    block_size: nat,
    mode: BlockMode,
)
    requires
        blocks.len() == chunks.len(),
        state.cursor <= output.len(),
        all_fit(state, output.len(), chunks, block_size, mode),
        forall|i: int|
            0 <= i < blocks.len() ==> decode_block(
                #[trigger] blocks[i],
                state.dict(output, mode),
                chunks[i].len() as int,
            ) == Ok::<Seq<u8>, DecompressError>(chunks[i]),
    ensures
        decode_all(state, output, blocks, block_size, mode) == Ok::<Run, Error>(
            Run {
                state: state.after_block(joined(chunks)),
                output: overwritten(output, state.cursor as int, joined(chunks)),
                counts: chunks.map_values(|chunk: Seq<u8>| chunk.len()),
            },
        ),
        state.cursor + joined(chunks).len() <= output.len(),
    decreases blocks.len(),
{
    let lengths = chunks.map_values(|chunk: Seq<u8>| chunk.len());
    if blocks.len() == 0 {
        assert(state.after_block(joined(chunks)).hashed =~= state.hashed);
        assert(overwritten(output, state.cursor as int, joined(chunks)) =~= output);
        assert(lengths =~= Seq::empty());
    } else {
        let chunk = chunks.first();
        let later = chunks.drop_first();
        let after = state.after_block(chunk);
        let buffer = overwritten(output, state.cursor as int, chunk);
        let dict = state.dict(output, mode);
        let room = state.region_end(block_size, mode) - state.cursor;

        assert(state.block_outcome(blocks.first(), output, block_size, mode) == Ok::<
            Seq<u8>,
            DecompressError,
        >(chunk)) by {
            assert(blocks.first() == blocks[0]);
            lemma_capacity_of_block(blocks.first(), dict, chunk.len() as int, room);
        }
        lemma_dict_survives(state, output, chunk, block_size, mode);
        assert forall|i: int| 0 <= i < blocks.drop_first().len() implies decode_block(
            #[trigger] blocks.drop_first()[i],
            after.dict(buffer, mode),
            later[i].len() as int,
        ) == Ok::<Seq<u8>, DecompressError>(later[i]) by {
            assert(blocks.drop_first()[i] == blocks[i + 1]);
            assert(later[i] == chunks[i + 1]);
        }
        lemma_valid_blocks_decode(after, buffer, blocks.drop_first(), later, block_size, mode);
        lemma_after_block_twice(state, chunk, joined(later));
        lemma_overwritten_twice(output, state.cursor as int, chunk, joined(later));
        assert(seq![chunk.len()] + later.map_values(|chunk: Seq<u8>| chunk.len()) =~= lengths);
    }
}

/// A frame decodes to the data it was made from and its checksum verifies:
/// if every block decodes on its own to its chunk of the data, and the buffer
/// has room, then a decompressor that starts fresh decodes all blocks, the
/// buffer begins with the data and the cursor stands behind it. A trailer is
/// then accepted if it holds the data's digest in little-endian order at the
/// cursor, and is a checksum mismatch if it holds anything else there.
pub proof fn lemma_frame_round_trip(
    output: Seq<u8>,
    blocks: Seq<Seq<u8>>,
    chunks: Seq<Seq<u8>>,
    block_size: nat,
    mode: BlockMode,
    trailer: Seq<u8>,
)
    requires
        blocks.len() == chunks.len(),
        all_fit(FrameState::fresh(), output.len(), chunks, block_size, mode),
        forall|i: int|
            0 <= i < blocks.len() ==> decode_block(
                #[trigger] blocks[i],
                Seq::empty(),
                chunks[i].len() as int,
            ) == Ok::<Seq<u8>, DecompressError>(chunks[i]),
        joined(chunks).len() + CHECKSUM_WIDTH <= trailer.len(),
    ensures
        decode_all(FrameState::fresh(), output, blocks, block_size, mode) matches Ok(run) && {
            &&& run.output.subrange(0, joined(chunks).len() as int) == joined(chunks)
            &&& run.state.hashed == joined(chunks)
            &&& run.state.cursor == joined(chunks).len()
            &&& run.state.finish_outcome(trailer) == if trailer.subrange(
                joined(chunks).len() as int,
                joined(chunks).len() + CHECKSUM_WIDTH,
            ) == le_bytes(xxh32(CONTENT_SEED, joined(chunks))) {
                Ok::<usize, Error>(CHECKSUM_WIDTH)
            } else {
                Err::<usize, Error>(Error::ContentChecksumError)
            }
        },
{
    let fresh = FrameState::fresh();
    lemma_valid_blocks_decode(fresh, output, blocks, chunks, block_size, mode);
    assert(fresh.after_block(joined(chunks)).hashed =~= joined(chunks));
    assert(overwritten(output, 0, joined(chunks)).subrange(0, joined(chunks).len() as int)
        =~= joined(chunks));
}

/// A trailer whose checksum differs in any byte from one that is accepted is
/// rejected as a checksum mismatch.
pub proof fn lemma_corrupt_checksum_rejected(
    state: FrameState,
    trailer: Seq<u8>,
    corrupted: Seq<u8>,
    at: int,
)
    requires
        state.cursor + CHECKSUM_WIDTH <= trailer.len(),
        state.finish_outcome(trailer) == Ok::<usize, Error>(CHECKSUM_WIDTH),
        corrupted.len() == trailer.len(),
        state.cursor <= at < state.cursor + CHECKSUM_WIDTH,
        corrupted[at] != trailer[at],
    ensures
        state.finish_outcome(corrupted) == Err::<usize, Error>(Error::ContentChecksumError),
{
    let from = state.cursor as int;
    let to = state.cursor + CHECKSUM_WIDTH;
    assert(corrupted.subrange(from, to)[at - from] != trailer.subrange(from, to)[at - from]);
}

/// The dictionary window is only a place to keep the dictionary: a linked
/// block decodes against the window to what it decodes to when the bytes of
/// the window are given as a dictionary of their own. The room up to the
/// window may be more than `block_size`; a block that decodes within
/// `block_size` decodes to the same bytes in that room.
pub proof fn lemma_window_is_dictionary(
    state: FrameState,
    input: Seq<u8>,
    output: Seq<u8>,
    block_size: nat,
    dict: Seq<u8>,
)
    requires
        state.dict_len != 0,
        state.block_fits(output.len(), block_size, BlockMode::Linked),
        dict == output.subrange(
            state.dict_offset as int,
            (state.dict_offset + state.dict_len) as int,
        ),
    ensures
        state.block_outcome(input, output, block_size, BlockMode::Linked) == decode_block(
            input,
            dict,
            state.dict_offset - state.cursor,
        ),
        decode_block(input, dict, block_size as int) is Ok ==> state.block_outcome(
            input,
            output,
            block_size,
            BlockMode::Linked,
        ) == decode_block(input, dict, block_size as int),
{
    let alone = decode_block(input, dict, block_size as int);
    if alone is Ok {
        lemma_decoded_extends(input, 0, dict, Seq::empty(), block_size as int);
        lemma_capacity_of_block(input, dict, block_size as int, state.dict_offset - state.cursor);
    }
}

/// Decoding is a function of what is fed in: two decompressors that start
/// fresh and are given the same blocks and the same trailer end alike, with
/// the same outcome for every block, the same digest and the same answer to
/// the trailer.
pub proof fn lemma_fresh_decompressors_agree(
    one: FrameDecompressor,
    other: FrameDecompressor,
    output: Seq<u8>,
    blocks: Seq<Seq<u8>>,
    block_size: nat,
    mode: BlockMode,
    trailer: Seq<u8>,
)
    requires
        one@ == FrameState::fresh(),
        other@ == FrameState::fresh(),
    ensures
        decode_all(one@, output, blocks, block_size, mode) == decode_all(
            other@,
            output,
            blocks,
            block_size,
            mode,
        ),
        decode_all(one@, output, blocks, block_size, mode) matches Ok(run) ==> {
            let again = decode_all(other@, output, blocks, block_size, mode)->Ok_0;
            &&& run.state.digest() == again.state.digest()
            &&& run.state.finish_outcome(trailer) == again.state.finish_outcome(trailer)
        },
{
}

} // verus!
