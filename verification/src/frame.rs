//! The frame-level driver.
//!
//! A [`FrameDecompressor`] is made once per frame. The caller hands it the
//! frame's blocks in order, each with the buffer that receives the
//! decompressed bytes, and at the end the trailer that holds the content
//! checksum. The driver keeps the position at which the next block is written,
//! the place of the dictionary window for linked blocks, and a running digest
//! of every byte it has produced.
use crate::block::{
    agree_outside, decode_block, decompress_into, overwritten, DecompressError,
};
use crate::hash::{
    hasher_finish, hasher_input, hasher_seed, hasher_with_seed, hasher_write, le_bytes,
    to_le_bytes, xxh32,
};
use twox_hash::XxHash32;
use vstd::prelude::*;

verus! {

/// How the blocks of a frame relate to one another.
#[derive(Clone, Copy, Debug, PartialEq, Eq, Structural)]
pub enum BlockMode {
    /// Every block decodes on its own.
    Independent,
    /// A block may refer back to bytes of the dictionary window.
    Linked,
}

/// Why a frame cannot be decoded. Each of these ends the frame.
#[derive(Clone, Copy, Debug, PartialEq, Eq, Structural)]
pub enum Error {
    /// A block was rejected by the block decoder, for the reason given.
    DecompressionError(DecompressError),
    /// The digest of the decompressed bytes is not the one in the trailer.
    ContentChecksumError,
    /// The trailer is shorter than a checksum.
    UnexpectedEof,
}

/// The seed of the content checksum.
pub const CONTENT_SEED: u32 = 0;

/// The number of bytes that the content checksum takes in the trailer.
pub const CHECKSUM_WIDTH: usize = 4;

/// What a [`FrameDecompressor`] stands for.
pub struct FrameState {
    /// Every byte decoded so far, in order: what the running digest covers.
    pub hashed: Seq<u8>,
    /// Where in the output buffer the next block is written.
    pub cursor: nat,
    /// Where in the output buffer the dictionary window starts.
    pub dict_offset: nat,
    /// The length of the dictionary window; zero if there is none.
    pub dict_len: nat,
}

impl FrameState {
    /// The state at the start of a frame.
    pub open spec fn fresh() -> FrameState {
        FrameState { hashed: Seq::empty(), cursor: 0, dict_offset: 0, dict_len: 0 }
    }

    /// Whether a block in `mode` is decoded against the dictionary window.
    pub open spec fn uses_dict(self, mode: BlockMode) -> bool {
        mode == BlockMode::Linked && self.dict_len != 0
    }

    /// The dictionary that a block in `mode` is decoded against.
    pub open spec fn dict(self, output: Seq<u8>, mode: BlockMode) -> Seq<u8> {
        if self.uses_dict(mode) {
            output.subrange(self.dict_offset as int, (self.dict_offset + self.dict_len) as int)
        } else {
            Seq::empty()
        }
    }

    /// The end of the region that a block in `mode` may write: the region
    /// starts at the cursor. Against a dictionary window it reaches up to the
    /// window; otherwise it is `block_size` long.
    pub open spec fn region_end(self, block_size: nat, mode: BlockMode) -> nat {
        if self.uses_dict(mode) {
            self.dict_offset
        } else {
            self.cursor + block_size
        }
    }

    /// Whether a buffer of `output_len` bytes has room for a block of up to
    /// `block_size` bytes in `mode`: the region to write lies in the buffer,
    /// and so does the dictionary window, behind that region.
    pub open spec fn block_fits(self, output_len: nat, block_size: nat, mode: BlockMode) -> bool {
        if self.uses_dict(mode) {
            &&& self.cursor + block_size <= self.dict_offset
            &&& self.dict_offset + self.dict_len <= output_len
        } else {
            self.cursor + block_size <= output_len
        }
    }

    /// What decoding the block `input` in `mode` gives: its decompressed
    /// bytes, or the reason why it is rejected.
    pub open spec fn block_outcome(
        self,
        input: Seq<u8>,
        output: Seq<u8>,
        block_size: nat,
        mode: BlockMode,
    ) -> Result<Seq<u8>, DecompressError> {
        decode_block(
            input,
            self.dict(output, mode),
            self.region_end(block_size, mode) - self.cursor,
        )
    }

    /// The state after a block that decoded to `bytes`.
    pub open spec fn after_block(self, bytes: Seq<u8>) -> FrameState {
        FrameState { hashed: self.hashed + bytes, cursor: self.cursor + bytes.len(), ..self }
    }

    /// The content checksum of what has been decoded so far.
    pub open spec fn digest(self) -> u32 {
        xxh32(CONTENT_SEED, self.hashed)
    }

    /// What checking the trailer `input` gives. The checksum is read at the
    /// cursor.
    pub open spec fn finish_outcome(self, input: Seq<u8>) -> Result<usize, Error> {
        if input.len() < CHECKSUM_WIDTH {
            Err(Error::UnexpectedEof)
        } else if input.subrange(self.cursor as int, self.cursor + CHECKSUM_WIDTH) == le_bytes(
            self.digest(),
        ) {
            Ok(CHECKSUM_WIDTH)
        } else {
            Err(Error::ContentChecksumError)
        }
    }

    /// The state after a trailer that was accepted.
    pub open spec fn after_finish(self) -> FrameState {
        FrameState { cursor: self.cursor + CHECKSUM_WIDTH as nat, ..self }
    }
}

/// Decodes the blocks of one frame and checks its content checksum.
///
/// A decompressor is made by [`new`](Self::new) at the start of a frame, is
/// handed the frame's blocks in order by
/// [`decompress_frame`](Self::decompress_frame), and is handed the trailer by
/// [`finish_frame`](Self::finish_frame) once, after the last block. A failure
/// of either ends the frame. Where linked blocks are to refer to earlier
/// output, the caller places that output in the buffer and tells where with
/// [`set_dict_window`](Self::set_dict_window).
pub struct FrameDecompressor {
    content_hasher: XxHash32,
    ext_dict_offset: usize,
    ext_dict_len: usize,
    dst_start: usize,
}

impl View for FrameDecompressor {
    type V = FrameState;

    closed spec fn view(&self) -> FrameState {
        FrameState {
            hashed: hasher_input(self.content_hasher),
            cursor: self.dst_start as nat,
            dict_offset: self.ext_dict_offset as nat,
            dict_len: self.ext_dict_len as nat,
        }
    }
}

/// What holds of a buffer whose head, the part before `mid`, was handed out
/// for writing from `at` on while the rest stayed: the buffer changed as the
/// head did.
proof fn lemma_head_of_buffer(buf: Seq<u8>, head: Seq<u8>, mid: int, at: int)
    requires
        0 <= at <= mid <= buf.len(),
        head.len() == mid,
    ensures
        forall|bytes: Seq<u8>|
            at + bytes.len() <= mid && head == #[trigger] overwritten(
                buf.subrange(0, mid),
                at,
                bytes,
            ) ==> head + buf.subrange(mid, buf.len() as int) == overwritten(buf, at, bytes),
        agree_outside(head, buf.subrange(0, mid), at, mid) ==> agree_outside(
            head + buf.subrange(mid, buf.len() as int),
            buf,
            at,
            mid,
        ),
{
    assert forall|bytes: Seq<u8>|
        at + bytes.len() <= mid && head == #[trigger] overwritten(
            buf.subrange(0, mid),
            at,
            bytes,
        ) implies head + buf.subrange(mid, buf.len() as int) == overwritten(buf, at, bytes) by {
        assert(head + buf.subrange(mid, buf.len() as int) =~= overwritten(buf, at, bytes));
    }
}

/// Whether `a` and `b` hold the same bytes.
fn same_bytes(a: &[u8], b: &[u8]) -> (same: bool)
    ensures
        same == (a@ == b@),
{
    if a.len() != b.len() {
        return false;
    }
    let mut i: usize = 0;
    while i < a.len()
        invariant
            i <= a.len() == b.len(),
            a@.subrange(0, i as int) == b@.subrange(0, i as int),
        decreases a.len() - i,
    {
        if a[i] != b[i] {
            return false;
        }
        i += 1;
        assert(a@.subrange(0, i as int) =~= a@.subrange(0, i - 1).push(a@[i - 1]));
        assert(b@.subrange(0, i as int) =~= b@.subrange(0, i - 1).push(b@[i - 1]));
    }
    assert(a@ =~= a@.subrange(0, i as int));
    assert(b@ =~= b@.subrange(0, i as int));
    true
}

impl FrameDecompressor {
    /// The digest runs under the frame's seed and covers no more bytes than
    /// the cursor has passed.
    #[verifier::type_invariant]
    spec fn well_formed(self) -> bool {
        &&& hasher_seed(self.content_hasher) == CONTENT_SEED
        &&& hasher_input(self.content_hasher).len() <= self.dst_start
    }

    /// A decompressor at the start of a frame.
    pub fn new() -> (fresh: FrameDecompressor)
        ensures
            fresh@ == FrameState::fresh(),
    {
        FrameDecompressor {
            content_hasher: hasher_with_seed(CONTENT_SEED),
            ext_dict_offset: 0,
            ext_dict_len: 0,
            dst_start: 0,
        }
    }

    /// Where in the output buffer the next block is written.
    pub fn write_cursor(&self) -> (cursor: usize)
        ensures
            cursor == self@.cursor,
    {
        self.dst_start
    }

    /// Whether a buffer of `output_len` bytes has room for a block of up to
    /// `block_size` bytes in `block_mode`: what
    /// [`decompress_frame`](Self::decompress_frame) asks of its caller.
    pub fn block_fits(&self, output_len: usize, block_size: usize, block_mode: BlockMode) -> (fits:
        bool)
        ensures
            fits == self@.block_fits(output_len as nat, block_size as nat, block_mode),
    {
        let with_dict_mode = block_mode == BlockMode::Linked && self.ext_dict_len != 0;
        if with_dict_mode {
            self.dst_start <= self.ext_dict_offset && block_size <= self.ext_dict_offset
                - self.dst_start && self.ext_dict_offset <= output_len && self.ext_dict_len
                <= output_len - self.ext_dict_offset
        } else {
            self.dst_start <= output_len && block_size <= output_len - self.dst_start
        }
    }

    /// Sets the dictionary window for the blocks to come: `len` bytes of the
    /// output buffer from `offset` on. A length of zero means no window.
    pub fn set_dict_window(&mut self, offset: usize, len: usize)
        ensures
            final(self)@ == (FrameState {
                dict_offset: offset as nat,
                dict_len: len as nat,
                ..old(self)@
            }),
    {
        proof {
            use_type_invariant(&*self);
        }
        self.ext_dict_offset = offset;
        self.ext_dict_len = len;
    }

    /// Decodes the block `input` into `output` at the write cursor, folds the
    /// decompressed bytes into the content checksum and moves the cursor past
    /// them. Returns the number of bytes that the block decoded to.
    ///
    /// A block in linked mode, with a dictionary window set, is decoded
    /// against the bytes of that window and may fill the buffer up to the
    /// window. Any other block is decoded on its own and may take
    /// `block_size` bytes. A block that is rejected leaves the decompressor as
    /// it was, and the buffer as it was outside the region that the block
    /// might have written.
    ///
    /// The buffer must have room for the block: `block_size` bytes from the
    /// cursor on, and behind them the dictionary window if there is one. See
    /// [`block_fits`](Self::block_fits).
    pub fn decompress_frame(
        &mut self,
        input: &[u8],
        output: &mut [u8],
        block_size: usize,
        block_mode: BlockMode,
    ) -> (r: Result<usize, Error>)
        requires
            old(self)@.block_fits(old(output)@.len(), block_size as nat, block_mode),
        ensures
            match old(self)@.block_outcome(input@, old(output)@, block_size as nat, block_mode) {
                Ok(bytes) => {
                    &&& r == Ok::<usize, Error>(bytes.len() as usize)
                    &&& old(self)@.cursor + bytes.len() <= old(self)@.region_end(
                        block_size as nat,
                        block_mode,
                    )
                    &&& final(self)@ == old(self)@.after_block(bytes)
                    &&& final(output)@ == overwritten(
                        old(output)@,
                        old(self)@.cursor as int,
                        bytes,
                    )
                },
                Err(e) => {
                    &&& r == Err::<usize, Error>(Error::DecompressionError(e))
                    &&& final(self)@ == old(self)@
                    &&& agree_outside(
                        final(output)@,
                        old(output)@,
                        old(self)@.cursor as int,
                        old(self)@.region_end(block_size as nat, block_mode) as int,
                    )
                },
            },
    {
        proof {
            use_type_invariant(&*self);
        }
        let ghost before = output@;
        let ghost state = self@;
        assert(before.len() == output.len());
        let with_dict_mode = block_mode == BlockMode::Linked && self.ext_dict_len != 0;

        let decoded = if with_dict_mode {
            let (head, tail) = output.split_at_mut(self.ext_dict_offset);
            let ext_dict = &tail[0..self.ext_dict_len];
            let head_len = head.len();
            assert(ext_dict@ =~= state.dict(before, block_mode));
            assert(head_len == state.region_end(block_size as nat, block_mode));
            let decoded = decompress_into(input, head, self.dst_start, head_len, ext_dict);
            proof {
                lemma_head_of_buffer(before, head@, state.dict_offset as int, state.cursor as int);
            }
            decoded
        } else {
            let no_dict: [u8; 0] = [];
            assert(no_dict@ =~= state.dict(before, block_mode));
            decompress_into(
                input,
                output,
                self.dst_start,
                self.dst_start + block_size,
                &no_dict,
            )
        };
        let decompressed_size = match decoded {
            Ok(size) => size,
            Err(e) => {
                return Err(Error::DecompressionError(e));
            },
        };

        let written = &output[self.dst_start..self.dst_start + decompressed_size];
        proof {
            let bytes = state.block_outcome(input@, before, block_size as nat, block_mode)->Ok_0;
            assert(written@ =~= bytes);
        }
        self.dst_start += decompressed_size;
        hasher_write(&mut self.content_hasher, written);

        Ok(decompressed_size)
    }

    /// Checks the trailer `input` against the digest of what was decoded:
    /// the four bytes of `input` at the write cursor must be that digest,
    /// least significant byte first. Returns the number of bytes that the
    /// checksum takes and moves the cursor past them. A trailer of fewer than
    /// four bytes, or one with another checksum, leaves the decompressor as
    /// it was.
    ///
    /// The trailer is addressed as the output buffer is: a trailer of four
    /// bytes or more must reach to the end of the checksum at the cursor.
    pub fn finish_frame(&mut self, input: &[u8]) -> (r: Result<usize, Error>)
        requires
            input.len() >= CHECKSUM_WIDTH ==> old(self)@.cursor + CHECKSUM_WIDTH <= input.len(),
        ensures
            r == old(self)@.finish_outcome(input@),
            r is Ok ==> final(self)@ == old(self)@.after_finish(),
            r is Err ==> final(self)@ == old(self)@,
    {
        proof {
            use_type_invariant(&*self);
        }
        let checksum = hasher_finish(&self.content_hasher) as u32;
        let checksum_bytes = to_le_bytes(checksum);

        if input.len() < CHECKSUM_WIDTH {
            return Err(Error::UnexpectedEof);
        }
        let stored = &input[self.dst_start..self.dst_start + CHECKSUM_WIDTH];
        if !same_bytes(stored, &checksum_bytes) {
            return Err(Error::ContentChecksumError);
        }
        self.dst_start += CHECKSUM_WIDTH;

        Ok(CHECKSUM_WIDTH)
    }
}

} // verus!
