//! Decoding of a single LZ4 block.
//!
//! A block is a run of sequences. Each sequence starts with a token byte whose
//! high nibble is a literal count and whose low nibble is a match count; a
//! nibble of 15 is continued by further bytes, each adding its value, until one
//! is below 255. The literals follow the literal count. Unless the input ends
//! right after them, they are followed by a two-byte little-endian offset and a
//! match of the match count plus four bytes, copied from that many bytes back
//! in what has been produced so far, the dictionary standing before it.
use vstd::prelude::*;

verus! {

/// Why a compressed block was rejected.
#[derive(Clone, Copy, Debug, PartialEq, Eq, Structural)]
pub enum DecompressError {
    /// The input ended where a token, a length byte or a match offset was due.
    ExpectedAnotherByte,
    /// A literal run is longer than the input that is left.
    LiteralOutOfBounds,
    /// A match offset is zero or reaches back further than the bytes available.
    OffsetOutOfBounds,
    /// The block decodes to more bytes than the output region can take.
    OutputTooSmall,
}

/// The smallest match the format can express.
pub const MIN_MATCH: usize = 4;

/// The continuation of a length whose nibble was 15: `total` so far, the next
/// byte at `pos`. Gives the length and the position after its last byte, or
/// `None` if the input ends first.
pub open spec fn continued_length(input: Seq<u8>, pos: int, total: int) -> Option<(int, int)>
    decreases input.len() - pos,
{
    if pos < 0 || pos >= input.len() {
        None
    } else if input[pos] == 255 {
        continued_length(input, pos + 1, total + 255)
    } else {
        Some((total + input[pos], pos + 1))
    }
}

/// The length that a token's `nibble` announces, with the position at which
/// the data after it starts.
pub open spec fn length_at(input: Seq<u8>, pos: int, nibble: int) -> Option<(int, int)> {
    if nibble < 15 {
        Some((nibble, pos))
    } else {
        continued_length(input, pos, 15)
    }
}

/// The bytes of a match of `len` bytes that starts `offset` bytes before the
/// end of `history`. A match longer than its offset repeats itself.
pub open spec fn match_bytes(history: Seq<u8>, offset: int, len: int) -> Seq<u8>
    recommends
        0 < offset <= history.len(),
        0 <= len,
{
    Seq::new(len as nat, |i: int| history[history.len() - offset + i % offset])
}

/// The literals of the sequence whose token is at `pos`, appended to `out`:
/// the output so far, and the position after the literals.
pub open spec fn with_literals(input: Seq<u8>, pos: int, out: Seq<u8>, capacity: int) -> Result<
    (Seq<u8>, int),
    DecompressError,
> {
    if pos < 0 || pos >= input.len() {
        Err(DecompressError::ExpectedAnotherByte)
    } else {
        match length_at(input, pos + 1, input[pos] as int / 16) {
            None => Err(DecompressError::ExpectedAnotherByte),
            Some((len, from)) => {
                if from + len > input.len() {
                    Err(DecompressError::LiteralOutOfBounds)
                } else if out.len() + len > capacity {
                    Err(DecompressError::OutputTooSmall)
                } else {
                    Ok((out + input.subrange(from, from + len), from + len))
                }
            },
        }
    }
}

/// The match of a sequence, appended to `out`: its offset stands at `pos` and
/// `nibble` is the low half of the sequence's token. Gives the output so far
/// and the position of the next token.
pub open spec fn with_match(
    input: Seq<u8>,
    pos: int,
    nibble: int,
    dict: Seq<u8>,
    out: Seq<u8>,
    capacity: int,
) -> Result<(Seq<u8>, int), DecompressError> {
    if pos < 0 || pos + 2 > input.len() {
        Err(DecompressError::ExpectedAnotherByte)
    } else {
        match length_at(input, pos + 2, nibble) {
            None => Err(DecompressError::ExpectedAnotherByte),
            Some((extra, next)) => {
                let offset = input[pos] + 256 * input[pos + 1];
                let len = extra + MIN_MATCH;
                if out.len() + len > capacity {
                    Err(DecompressError::OutputTooSmall)
                } else if offset == 0 || offset > dict.len() + out.len() {
                    Err(DecompressError::OffsetOutOfBounds)
                } else {
                    Ok((out + match_bytes(dict + out, offset, len), next))
                }
            },
        }
    }
}

/// What the sequences from `pos` on decode to, given that the block has
/// produced `out` already and may produce `capacity` bytes in all. The block
/// ends with the literals of its last sequence.
pub open spec fn decode_sequences(
    input: Seq<u8>,
    pos: int,
    dict: Seq<u8>,
    out: Seq<u8>,
    capacity: int,
) -> Result<Seq<u8>, DecompressError>
    decreases input.len() - pos,
{
    match with_literals(input, pos, out, capacity) {
        Err(e) => Err(e),
        Ok((out, literal_end)) => {
            if literal_end == input.len() {
                Ok(out)
            } else {
                match with_match(input, literal_end, input[pos] as int % 16, dict, out, capacity) {
                    Err(e) => Err(e),
                    Ok((out, next)) => {
                        proof {
                            lemma_length_at_advances(input, pos + 1, input[pos] as int / 16);
                            lemma_length_at_advances(
                                input,
                                literal_end + 2,
                                input[pos] as int % 16,
                            );
                        }
                        decode_sequences(input, next, dict, out, capacity)
                    },
                }
            }
        },
    }
}

/// What a whole block decodes to with `dict` as its dictionary, when at most
/// `capacity` bytes may be produced: the decompressed bytes, or the reason why
/// the block is rejected.
pub open spec fn decode_block(input: Seq<u8>, dict: Seq<u8>, capacity: int) -> Result<
    Seq<u8>,
    DecompressError,
> {
    decode_sequences(input, 0, dict, Seq::empty(), capacity)
}

/// A continued length is at least `total` and ends after `pos`, within the input.
pub proof fn lemma_continued_length_advances(input: Seq<u8>, pos: int, total: int)
    ensures
        continued_length(input, pos, total) matches Some((len, next)) ==> total <= len && pos
            < next <= input.len(),
    decreases input.len() - pos,
{
    if 0 <= pos < input.len() && input[pos] == 255 {
        lemma_continued_length_advances(input, pos + 1, total + 255);
    }
}

/// A length is not negative and the data after it starts at `pos` or later.
pub proof fn lemma_length_at_advances(input: Seq<u8>, pos: int, nibble: int)
    requires
        0 <= nibble,
    ensures
        length_at(input, pos, nibble) matches Some((len, next)) ==> 0 <= len && pos <= next && (
        pos <= input.len() ==> next <= input.len()),
{
    if nibble >= 15 {
        lemma_continued_length_advances(input, pos, 15);
    }
}


/// Whatever the sequences from `pos` on decode to begins with `out` and is
/// within the capacity.
pub proof fn lemma_decoded_extends(
    input: Seq<u8>,
    pos: int,
    dict: Seq<u8>,
    out: Seq<u8>,
    capacity: int,
)
    ensures
        decode_sequences(input, pos, dict, out, capacity) matches Ok(bytes) ==> {
            &&& out.len() <= bytes.len() <= capacity
            &&& bytes.subrange(0, out.len() as int) == out
        },
    decreases input.len() - pos,
{
    let literals = with_literals(input, pos, out, capacity);
    if literals is Ok {
        let (longer, literal_end) = literals->Ok_0;
        let nibble = input[pos] as int % 16;
        lemma_length_at_advances(input, pos + 1, input[pos] as int / 16);
        assert(longer.subrange(0, out.len() as int) =~= out);
        let copied = with_match(input, literal_end, nibble, dict, longer, capacity);
        if literal_end != input.len() && copied is Ok {
            let (longest, next) = copied->Ok_0;
            lemma_length_at_advances(input, literal_end + 2, nibble);
            assert(longest.subrange(0, out.len() as int) =~= out);
            lemma_decoded_extends(input, next, dict, longest, capacity);
            let decoded = decode_sequences(input, next, dict, longest, capacity);
            if decoded is Ok {
                let bytes = decoded->Ok_0;
                assert(bytes.subrange(0, out.len() as int) =~= bytes.subrange(
                    0,
                    longest.len() as int,
                ).subrange(0, out.len() as int));
            }
        }
    }
}

/// The capacity decides only whether the decoded bytes fit: sequences that
/// decode under one capacity decode to the same bytes under any other that
/// holds them.
pub proof fn lemma_capacity_of_sequences(
    input: Seq<u8>,
    pos: int,
    dict: Seq<u8>,
    out: Seq<u8>,
    capacity: int,
    other: int,
)
    requires
        decode_sequences(input, pos, dict, out, capacity) matches Ok(bytes) && bytes.len()
            <= other,
    ensures
        decode_sequences(input, pos, dict, out, other) == decode_sequences(
            input,
            pos,
            dict,
            out,
            capacity,
        ),
    decreases input.len() - pos,
{
    let (longer, literal_end) = with_literals(input, pos, out, capacity)->Ok_0;
    let nibble = input[pos] as int % 16;
    lemma_length_at_advances(input, pos + 1, input[pos] as int / 16);
    if literal_end == input.len() {
        assert(with_literals(input, pos, out, other) == with_literals(input, pos, out, capacity));
    } else {
        let (longest, next) = with_match(input, literal_end, nibble, dict, longer, capacity)->Ok_0;
        lemma_length_at_advances(input, literal_end + 2, nibble);
        lemma_decoded_extends(input, next, dict, longest, capacity);
        assert(with_literals(input, pos, out, other) == with_literals(input, pos, out, capacity));
        assert(with_match(input, literal_end, nibble, dict, longer, other) == with_match(
            input,
            literal_end,
            nibble,
            dict,
            longer,
            capacity,
        ));
        lemma_capacity_of_sequences(input, next, dict, longest, capacity, other);
    }
}

/// A block that decodes under one capacity decodes to the same bytes under
/// any other that holds them.
pub proof fn lemma_capacity_of_block(input: Seq<u8>, dict: Seq<u8>, capacity: int, other: int)
    requires
        decode_block(input, dict, capacity) matches Ok(bytes) && bytes.len() <= other,
    ensures
        decode_block(input, dict, other) == decode_block(input, dict, capacity),
{
    lemma_capacity_of_sequences(input, 0, dict, Seq::empty(), capacity, other);
}

/// `buf` with `bytes` written over it from index `at` on.
pub open spec fn overwritten(buf: Seq<u8>, at: int, bytes: Seq<u8>) -> Seq<u8>
    recommends
        0 <= at,
        at + bytes.len() <= buf.len(),
{
    buf.subrange(0, at) + bytes + buf.subrange(at + bytes.len(), buf.len() as int)
}

/// `a` and `b` have one length and agree at every index outside `start..end`.
pub open spec fn agree_outside(a: Seq<u8>, b: Seq<u8>, start: int, end: int) -> bool {
    &&& a.len() == b.len()
    &&& forall|i: int| 0 <= i < a.len() && !(start <= i < end) ==> a[i] == b[i]
}

/// A length as the decoder holds it: exact up to `usize::MAX`, and that value
/// for anything larger.
spec fn saturated(len: int) -> usize {
    if len > usize::MAX {
        usize::MAX
    } else {
        len as usize
    }
}

/// Reads the length that `nibble` announces, with the position after it.
fn read_length(input: &[u8], pos: usize, nibble: u8) -> (r: Option<(usize, usize)>)
    requires
        pos <= input.len(),
        nibble < 16,
    ensures
        match length_at(input@, pos as int, nibble as int) {
            None => r is None,
            Some((len, next)) => r == Some((saturated(len), next as usize)) && pos <= next
                <= input.len() && 0 <= len,
        },
{
    if nibble < 15 {
        return Some((nibble as usize, pos));
    }
    let mut total: usize = 15;
    let mut p: usize = pos;
    let ghost mut exact: int = 15;
    loop
        invariant
            pos <= p <= input.len(),
            15 <= exact,
            total == saturated(exact),
            length_at(input@, pos as int, nibble as int) == continued_length(
                input@,
                p as int,
                exact,
            ),
        decreases input.len() - p,
    {
        if p >= input.len() {
            return None;
        }
        let byte = input[p];
        p += 1;
        total = total.saturating_add(byte as usize);
        proof {
            exact = exact + byte;
        }
        if byte != 255 {
            return Some((total, p));
        }
    }
}

/// Copies `len` bytes of `input`, from index `from` on, to `output` at `at`.
fn copy_literals(input: &[u8], from: usize, output: &mut [u8], at: usize, len: usize)
    requires
        from + len <= input.len(),
        at + len <= old(output).len(),
    ensures
        final(output)@ == overwritten(
            old(output)@,
            at as int,
            input@.subrange(from as int, from + len),
        ),
{
    let mut i: usize = 0;
    while i < len
        invariant
            i <= len,
            from + len <= input.len(),
            at + len <= output.len(),
            output.len() == old(output).len(),
            output@ == overwritten(old(output)@, at as int, input@.subrange(from as int, from + i)),
        decreases len - i,
    {
        output[at + i] = input[from + i];
        i += 1;
    }
}

/// Appends a match to the block's output, which occupies `start..at` of
/// `output`: `len` bytes from `offset` bytes back, the dictionary standing
/// before the block's output.
fn copy_match(
    output: &mut [u8],
    start: usize,
    at: usize,
    dict: &[u8],
    offset: usize,
    len: usize,
)
    requires
        start <= at,
        at + len <= old(output).len(),
        0 < offset <= dict.len() + (at - start),
    ensures
        final(output)@ == overwritten(
            old(output)@,
            at as int,
            match_bytes(
                dict@ + old(output)@.subrange(start as int, at as int),
                offset as int,
                len as int,
            ),
        ),
{
    let ghost history = dict@ + old(output)@.subrange(start as int, at as int);
    let produced = at - start;
    let mut i: usize = 0;
    while i < len
        invariant
            i <= len,
            start <= at,
            produced == at - start,
            at + len <= output.len(),
            output.len() == old(output).len(),
            0 < offset <= dict.len() + produced,
            history == dict@ + old(output)@.subrange(start as int, at as int),
            output@ == overwritten(
                old(output)@,
                at as int,
                match_bytes(history, offset as int, i as int),
            ),
        decreases len - i,
    {
        let ghost before = output@;
        let byte = if i < offset && offset - i > produced {
            dict[dict.len() - (offset - i - produced)]
        } else {
            output[at + i - offset]
        };
        proof {
            let k = i as int;
            let d = offset as int;
            if k >= d {
                assert((k - d) % d == k % d) by {
                    vstd::arithmetic::div_mod::lemma_mod_sub_multiples_vanish(k, d);
                }
                assert(before[at + k - d] == match_bytes(history, d, k)[k - d]);
            } else {
                assert(k % d == k) by {
                    vstd::arithmetic::div_mod::lemma_small_mod(k as nat, d as nat);
                }
            }
            assert(byte == history[history.len() - d + k % d]);
        }
        output[at + i] = byte;
        i += 1;
        proof {
            assert(output@ =~= overwritten(
                old(output)@,
                at as int,
                match_bytes(history, offset as int, i as int),
            ));
        }
    }
}

/// Copies the literals of the sequence whose token is at `ip` to `output` at
/// `op`. The block's output so far is `output[start..op]`. Returns the number
/// of literals and the input position after them.
fn literal_run(
    input: &[u8],
    ip: usize,
    output: &mut [u8],
    start: usize,
    op: usize,
    end: usize,
) -> (r: Result<(usize, usize), DecompressError>)
    requires
        start <= op <= end <= old(output).len(),
    ensures
        match with_literals(
            input@,
            ip as int,
            old(output)@.subrange(start as int, op as int),
            end - start,
        ) {
            Err(e) => r == Err::<(usize, usize), DecompressError>(e) && final(output)@ == old(
                output,
            )@,
            Ok((longer, literal_end)) => {
                &&& r == Ok::<(usize, usize), DecompressError>(
                    ((start + longer.len() - op) as usize, literal_end as usize),
                )
                &&& ip < literal_end <= input.len()
                &&& op <= start + longer.len() <= end
                &&& final(output)@.subrange(start as int, start + longer.len()) == longer
                &&& agree_outside(final(output)@, old(output)@, op as int, start + longer.len())
            },
        },
{
    if ip >= input.len() {
        return Err(DecompressError::ExpectedAnotherByte);
    }
    let token = input[ip];
    let (len, from) = match read_length(input, ip + 1, token / 16) {
        Some(found) => found,
        None => {
            return Err(DecompressError::ExpectedAnotherByte);
        },
    };
    if len > input.len() - from {
        return Err(DecompressError::LiteralOutOfBounds);
    }
    if len > end - op {
        return Err(DecompressError::OutputTooSmall);
    }
    copy_literals(input, from, output, op, len);
    proof {
        let out = old(output)@.subrange(start as int, op as int);
        let literals = input@.subrange(from as int, from + len);
        assert(output@.subrange(start as int, op + len) =~= out + literals);
    }
    Ok((len, from + len))
}

/// Copies the match of a sequence to `output` at `op`: its offset stands at
/// `ip` and `nibble` is the low half of the sequence's token. The block's
/// output so far is `output[start..op]`. Returns the match's length and the
/// position of the next token.
fn match_run(
    input: &[u8],
    ip: usize,
    nibble: u8,
    dict: &[u8],
    output: &mut [u8],
    start: usize,
    op: usize,
    end: usize,
) -> (r: Result<(usize, usize), DecompressError>)
    requires
        nibble < 16,
        start <= op <= end <= old(output).len(),
    ensures
        match with_match(
            input@,
            ip as int,
            nibble as int,
            dict@,
            old(output)@.subrange(start as int, op as int),
            end - start,
        ) {
            Err(e) => r == Err::<(usize, usize), DecompressError>(e) && final(output)@ == old(
                output,
            )@,
            Ok((longer, next)) => {
                &&& r == Ok::<(usize, usize), DecompressError>(
                    ((start + longer.len() - op) as usize, next as usize),
                )
                &&& ip < next <= input.len()
                &&& op <= start + longer.len() <= end
                &&& final(output)@.subrange(start as int, start + longer.len()) == longer
                &&& agree_outside(final(output)@, old(output)@, op as int, start + longer.len())
            },
        },
{
    if ip >= input.len() || input.len() - ip < 2 {
        return Err(DecompressError::ExpectedAnotherByte);
    }
    let offset = input[ip] as usize + 256 * (input[ip + 1] as usize);
    let (extra, next) = match read_length(input, ip + 2, nibble) {
        Some(found) => found,
        None => {
            return Err(DecompressError::ExpectedAnotherByte);
        },
    };
    let room = end - op;
    if room < MIN_MATCH || extra > room - MIN_MATCH {
        return Err(DecompressError::OutputTooSmall);
    }
    let len = extra + MIN_MATCH;
    let produced = op - start;
    if offset == 0 || (offset > produced && offset - produced > dict.len()) {
        return Err(DecompressError::OffsetOutOfBounds);
    }
    copy_match(output, start, op, dict, offset, len);
    proof {
        let out = old(output)@.subrange(start as int, op as int);
        let copied = match_bytes(dict@ + out, offset as int, len as int);
        assert(output@.subrange(start as int, op + len) =~= out + copied);
    }
    Ok((len, next))
}

/// A buffer that holds `bytes` from `at` on and is otherwise `buf` is `buf`
/// overwritten with `bytes`.
proof fn lemma_overwritten(buf: Seq<u8>, now: Seq<u8>, at: int, bytes: Seq<u8>)
    requires
        0 <= at,
        at + bytes.len() <= buf.len(),
        now.subrange(at, at + bytes.len()) == bytes,
        agree_outside(now, buf, at, at + bytes.len()),
    ensures
        now == overwritten(buf, at, bytes),
{
    assert forall|i: int| at <= i < at + bytes.len() implies now[i] == bytes[i - at] by {
        assert(now.subrange(at, at + bytes.len())[i - at] == now[i]);
    }
    assert(now =~= overwritten(buf, at, bytes));
}

/// Decodes the block `input` into `output[start..end]`, with `dict` as the
/// bytes that stand before the block's output.
///
/// The block's bytes are written from `start` on and their number is returned;
/// nothing else in `output` changes. A block that is rejected may leave any
/// bytes in `output[start..end]`, and leaves the rest as it was.
pub fn decompress_into(
    input: &[u8],
    output: &mut [u8],
    start: usize,
    end: usize,
    dict: &[u8],
) -> (r: Result<usize, DecompressError>)
    requires
        start <= end <= old(output).len(),
    ensures
        match decode_block(input@, dict@, end - start) {
            Ok(bytes) => {
                &&& r == Ok::<usize, DecompressError>(bytes.len() as usize)
                &&& bytes.len() <= end - start
                &&& final(output)@ == overwritten(old(output)@, start as int, bytes)
            },
            Err(e) => {
                &&& r == Err::<usize, DecompressError>(e)
                &&& agree_outside(final(output)@, old(output)@, start as int, end as int)
            },
        },
{
    let mut ip: usize = 0;
    let mut op: usize = start;
    assert(output@.subrange(start as int, op as int) =~= Seq::empty());
    loop
        invariant
            ip <= input.len(),
            start <= op <= end <= output.len(),
            agree_outside(output@, old(output)@, start as int, op as int),
            decode_block(input@, dict@, end - start) == decode_sequences(
                input@,
                ip as int,
                dict@,
                output@.subrange(start as int, op as int),
                end - start,
            ),
        decreases input.len() - ip,
    {
        let token_at = ip;
        match literal_run(input, ip, output, start, op, end) {
            Err(e) => {
                return Err(e);
            },
            Ok((len, literal_end)) => {
                op += len;
                ip = literal_end;
            },
        }
        if ip == input.len() {
            proof {
                lemma_overwritten(
                    old(output)@,
                    output@,
                    start as int,
                    output@.subrange(start as int, op as int),
                );
            }
            return Ok(op - start);
        }
        match match_run(input, ip, input[token_at] % 16, dict, output, start, op, end) {
            Err(e) => {
                return Err(e);
            },
            Ok((len, next)) => {
                op += len;
                ip = next;
            },
        }
    }
}

} // verus!
