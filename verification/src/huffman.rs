use vstd::prelude::*;
use vstd::arithmetic::div_mod::lemma_div_is_ordered;
use vstd::arithmetic::div_mod::lemma_fundamental_div_mod;
use vstd::arithmetic::div_mod::lemma_fundamental_div_mod_converse;
use vstd::arithmetic::div_mod::lemma_mod_division_less_than_divisor;
use vstd::slice::slice_subrange;
use crate::error::DecodeError;

verus! {

/// The Huffman-mode format discriminator byte.
pub const HUFFMAN_MODE: u8 = 0x28;

/// Offset of the bit-packed payload within the source. The tree descriptor
/// occupies bytes `4 .. mag_idx`, two bytes per node, sized by byte 4.
pub open spec fn mag_idx(src: Seq<u8>) -> int {
    6 + 2 * (src[4] as int)
}

/// Declared decompressed size: a little-endian 24-bit integer at bytes 1..4.
pub open spec fn out_len_spec(src: Seq<u8>) -> int {
    (src[1] as int) + 0x100 * (src[2] as int) + 0x10000 * (src[3] as int)
}

/// The embedded tree descriptor: bytes `4 .. mag_idx` of the source.
/// `tree[2*i]` is the left child entry of node `i`, `tree[2*i + 1]` the
/// right child entry; `tree[0]` bounds the node count and `tree[1]` is the
/// root entry that seeds the traversal.
pub open spec fn tree_spec(src: Seq<u8>) -> Seq<u8> {
    src.subrange(4, mag_idx(src))
}

/// Number of full 4-byte chunks in the bit-packed payload. Only full chunks
/// carry bits: the payload is read as 32-bit little-endian words.
pub open spec fn chunk_count(src: Seq<u8>) -> int {
    (src.len() - mag_idx(src)) / 4
}

/// Number of bits the payload offers.
pub open spec fn total_bits(src: Seq<u8>) -> int {
    32 * chunk_count(src)
}

/// Source byte holding bit `n` of the stream: bits come in 4-byte chunks,
/// bytes within a chunk in descending order (the most significant byte of a
/// little-endian 32-bit word first).
pub open spec fn bit_byte_idx(src: Seq<u8>, n: int) -> int {
    mag_idx(src) + 4 * (n / 32) + 3 - (n % 32) / 8
}

/// Mask selecting bit `n` within its byte: bits run from the most
/// significant down to the least significant.
pub open spec fn bit_mask(n: int) -> u8 {
    128u8 >> ((n % 8) as u8)
}

/// Bit `n` of the payload bitstream.
pub open spec fn bit_at(src: Seq<u8>, n: int) -> bool {
    src[bit_byte_idx(src, n)] & bit_mask(n) != 0
}

/// The traversal state machine, one recursive step per bit.
///
/// `pos` is the tree cursor, `entry` the current entry, `out` the output
/// emitted so far and `n` the next bit to consume. Per bit the cursor
/// advances by the entry's low six bits plus one (overrunning the declared
/// node count is `TreeOverflow`), then moves to the right or left child as
/// the bit directs; the previous entry's `0x40` (right) or `0x80` (left)
/// bit marks whether the child is a leaf. A leaf emits the new entry as one
/// output byte; when that byte brings the output to exactly the declared
/// length the current chunk must be the last one (`TrailingBytes`
/// otherwise). Running out of bits first is `TruncatedInput`, carrying the
/// number of output bytes still missing. The traversal is entered only
/// with the output strictly short of the declared length; a declared
/// length of zero never reaches it (see `decode_spec`).
pub open spec fn run(src: Seq<u8>, pos: int, entry: u8, out: Seq<u8>, n: int) -> Result<
    Seq<u8>,
    DecodeError,
>
    decreases total_bits(src) - n,
{
    if n < 0 || n >= total_bits(src) {
        Err(DecodeError::TruncatedInput((out_len_spec(src) - out.len()) as usize))
    } else {
        let tree = tree_spec(src);
        let next = pos + (entry & 0x3f) + 1;
        if next > tree[0] {
            Err(DecodeError::TreeOverflow)
        } else {
            let taken = bit_at(src, n);
            let new_entry = if taken {
                tree[2 * next + 1]
            } else {
                tree[2 * next]
            };
            let leaf = if taken {
                entry & 0x40 != 0
            } else {
                entry & 0x80 != 0
            };
            if leaf {
                let out2 = out.push(new_entry);
                if out2.len() == out_len_spec(src) {
                    let sp = mag_idx(src) + 4 * (n / 32);
                    if src.len() - sp != 4 {
                        Err(DecodeError::TrailingBytes((src.len() - sp) as usize))
                    } else {
                        Ok(out2)
                    }
                } else {
                    run(src, 0, tree[1], out2, n + 1)
                }
            } else {
                run(src, next, new_entry, out, n + 1)
            }
        }
    }
}

/// What `decode` returns on a source buffer: guard checks on the header,
/// then the traversal from the root with an empty output. A declared
/// length of zero is complete before any bit is read: the empty payload is
/// returned at once, so a successful decode always has exactly the
/// declared length.
pub open spec fn decode_spec(src: Seq<u8>) -> Result<Seq<u8>, DecodeError> {
    if src.len() <= 6 {
        Err(DecodeError::BufferTooSmall)
    } else if src[0] != HUFFMAN_MODE {
        Err(DecodeError::UnsupportedFormat)
    } else if src.len() <= mag_idx(src) {
        Err(DecodeError::UnsupportedFormat)
    } else if out_len_spec(src) == 0 {
        Ok(Seq::empty())
    } else {
        run(src, 0, tree_spec(src)[1], Seq::empty(), 0)
    }
}

/// Coordinates of bit `n = 32*c + 8*jj + kb` within the chunked stream.
proof fn lemma_bit_coords(c: int, jj: int, kb: int)
    requires
        0 <= c,
        0 <= jj < 4,
        0 <= kb < 8,
    ensures
        (32 * c + 8 * jj + kb) / 32 == c,
        ((32 * c + 8 * jj + kb) % 32) / 8 == jj,
        (32 * c + 8 * jj + kb) % 8 == kb,
{
    let n = 32 * c + 8 * jj + kb;
    lemma_fundamental_div_mod_converse(n, 32, c, 8 * jj + kb);
    lemma_fundamental_div_mod_converse(8 * jj + kb, 8, jj, kb);
    lemma_fundamental_div_mod_converse(n, 8, 4 * c + jj, kb);
}

/// A buffer holding `c` chunks and at least 4 more bytes holds more than
/// `c` chunks.
proof fn lemma_chunk_lower_bound(len: int, mag: int, c: int)
    requires
        0 <= mag,
        0 <= c,
        mag + 4 * c + 4 <= len,
    ensures
        (len - mag) / 4 >= c + 1,
{
    lemma_fundamental_div_mod_converse(4 * (c + 1), 4, c + 1, 0);
    lemma_div_is_ordered(4 * (c + 1), len - mag, 4);
}

/// A buffer holding `c` chunks and under 4 more bytes holds exactly `c`.
proof fn lemma_chunk_exact(len: int, mag: int, c: int)
    requires
        0 <= mag,
        0 <= c,
        mag + 4 * c <= len,
        len - (mag + 4 * c) < 4,
    ensures
        (len - mag) / 4 == c,
{
    lemma_fundamental_div_mod_converse(len - mag, 4, c, len - mag - 4 * c);
}

/// The traversal itself only fails structurally: overflow, trailing bytes
/// or truncation, never a container-layer error.
proof fn lemma_run_error_is_structural(src: Seq<u8>, pos: int, entry: u8, out: Seq<u8>, n: int)
    ensures
        run(src, pos, entry, out, n) != Err::<Seq<u8>, DecodeError>(DecodeError::SectorNotFound),
        run(src, pos, entry, out, n) != Err::<Seq<u8>, DecodeError>(DecodeError::LengthMismatch),
        run(src, pos, entry, out, n) != Err::<Seq<u8>, DecodeError>(DecodeError::ChecksumMismatch),
    decreases total_bits(src) - n,
{
    if 0 <= n && n < total_bits(src) {
        let tree = tree_spec(src);
        let next = pos + (entry & 0x3f) + 1;
        if next <= tree[0] {
            let taken = bit_at(src, n);
            let new_entry = if taken {
                tree[2 * next + 1]
            } else {
                tree[2 * next]
            };
            let leaf = if taken {
                entry & 0x40 != 0
            } else {
                entry & 0x80 != 0
            };
            if leaf {
                lemma_run_error_is_structural(src, 0, tree[1], out.push(new_entry), n + 1);
            } else {
                lemma_run_error_is_structural(src, next, new_entry, out, n + 1);
            }
        }
    }
}

/// A failed decode is a format error on the source header or a structural
/// error in the tree or bitstream, never a container-layer error.
pub proof fn lemma_decode_spec_error_is_structural(src: Seq<u8>)
    ensures
        decode_spec(src) != Err::<Seq<u8>, DecodeError>(DecodeError::SectorNotFound),
        decode_spec(src) != Err::<Seq<u8>, DecodeError>(DecodeError::LengthMismatch),
        decode_spec(src) != Err::<Seq<u8>, DecodeError>(DecodeError::ChecksumMismatch),
{
    if src.len() > 6 && src[0] == HUFFMAN_MODE && src.len() > mag_idx(src) {
        lemma_run_error_is_structural(src, 0, tree_spec(src)[1], Seq::empty(), 0);
    }
}

/// The payload of a source that holds at least `c + 1` full chunks extends
/// at least 4 bytes past chunk `c`.
proof fn lemma_chunks_fit(src: Seq<u8>, c: int)
    requires
        0 <= mag_idx(src) <= src.len(),
        0 <= c < chunk_count(src),
    ensures
        mag_idx(src) + 4 * c + 4 <= src.len(),
{
    let rest = src.len() - mag_idx(src);
    lemma_fundamental_div_mod(rest, 4);
    lemma_mod_division_less_than_divisor(rest, 4);
}

/// Truncating the source after bit chunk `c` preserves every quantity the
/// traversal reads below bit `32 * c`.
proof fn lemma_truncated_header_facts(src: Seq<u8>, c: int)
    requires
        6 < src.len(),
        mag_idx(src) < src.len(),
        1 <= c < chunk_count(src),
    ensures
        src.take(mag_idx(src) + 4 * c).len() == mag_idx(src) + 4 * c,
        mag_idx(src.take(mag_idx(src) + 4 * c)) == mag_idx(src),
        out_len_spec(src.take(mag_idx(src) + 4 * c)) == out_len_spec(src),
        tree_spec(src.take(mag_idx(src) + 4 * c)) == tree_spec(src),
        chunk_count(src.take(mag_idx(src) + 4 * c)) == c,
        total_bits(src.take(mag_idx(src) + 4 * c)) == 32 * c,
{
    let mag = mag_idx(src);
    lemma_chunks_fit(src, c);
    let t = src.take(mag + 4 * c);
    assert(tree_spec(t) =~= tree_spec(src));
    lemma_fundamental_div_mod_converse(4 * c, 4, c, 0);
}

/// If the traversal finishes from some state, then cutting the bitstream
/// off after chunk `c`, before the bit where it finished, leaves it
/// starved: from the same state it now fails with `TruncatedInput`.
proof fn lemma_run_truncated(src: Seq<u8>, c: int, pos: int, entry: u8, out: Seq<u8>, n: int)
    requires
        6 < src.len(),
        mag_idx(src) < src.len(),
        1 <= c < chunk_count(src),
        0 <= n <= 32 * c,
        run(src, pos, entry, out, n) is Ok,
    ensures
        run(src.take(mag_idx(src) + 4 * c), pos, entry, out, n) matches Err(
            DecodeError::TruncatedInput(_),
        ),
    decreases 32 * c - n,
{
    let mag = mag_idx(src);
    let t = src.take(mag + 4 * c);
    lemma_chunks_fit(src, c);
    lemma_truncated_header_facts(src, c);
    if n == 32 * c {
        assert(run(t, pos, entry, out, n) == Err::<Seq<u8>, DecodeError>(
            DecodeError::TruncatedInput((out_len_spec(t) - out.len()) as usize),
        ));
    } else {
        assert(n < total_bits(src));
        let tree = tree_spec(src);
        let next = pos + (entry & 0x3f) + 1;
        assert(next <= tree[0]);
        // coordinates of bit n lie inside the kept prefix
        lemma_div_is_ordered(n, 32 * c - 1, 32);
        lemma_fundamental_div_mod_converse(32 * c - 1, 32, c - 1, 31);
        assert(n / 32 <= c - 1);
        lemma_fundamental_div_mod(n, 32);
        lemma_mod_division_less_than_divisor(n, 32);
        lemma_div_is_ordered(0, n % 32, 8);
        lemma_div_is_ordered(n % 32, 31, 8);
        lemma_fundamental_div_mod_converse(31, 8, 3, 7);
        lemma_fundamental_div_mod_converse(0, 8, 0, 0);
        assert(0 <= (n % 32) / 8 <= 3);
        assert(mag <= bit_byte_idx(src, n) < mag + 4 * c);
        assert(bit_at(t, n) == bit_at(src, n));
        let taken = bit_at(src, n);
        let new_entry = if taken {
            tree[2 * next + 1]
        } else {
            tree[2 * next]
        };
        let leaf = if taken {
            entry & 0x40 != 0
        } else {
            entry & 0x80 != 0
        };
        if leaf && out.push(new_entry).len() == out_len_spec(src) {
            // the run finished here, so this was the final chunk of the
            // full source, past every chunk the truncation keeps
            assert(src.len() - (mag + 4 * (n / 32)) == 4);
            assert(4 * chunk_count(src) <= src.len() - mag) by {
                lemma_fundamental_div_mod(src.len() - mag, 4);
                lemma_mod_division_less_than_divisor(src.len() - mag, 4);
            }
            assert(n >= 32 * (n / 32));
            assert(false);
        } else if leaf {
            lemma_run_truncated(src, c, 0, tree[1], out.push(new_entry), n + 1);
        } else {
            lemma_run_truncated(src, c, next, new_entry, out, n + 1);
        }
    }
}

/// Cutting whole trailing chunks off a source that decodes successfully
/// to a nonempty payload makes the decode fail with `TruncatedInput`: the
/// bitstream runs out before the payload fills, and the error reports the
/// number of output bytes the shortened stream leaves missing. A source
/// declaring zero output bytes is excluded: it consumes no bits, so it
/// decodes to the same empty payload however many chunks are cut.
pub proof fn lemma_decode_truncated(src: Seq<u8>, c: int)
    requires
        decode_spec(src) is Ok,
        0 < out_len_spec(src),
        1 <= c < chunk_count(src),
    ensures
        decode_spec(src.take(mag_idx(src) + 4 * c)) matches Err(DecodeError::TruncatedInput(_)),
{
    let mag = mag_idx(src);
    let t = src.take(mag + 4 * c);
    lemma_chunks_fit(src, c);
    lemma_truncated_header_facts(src, c);
    assert(t.len() > 6);
    assert(t[0] == HUFFMAN_MODE);
    lemma_run_truncated(src, c, 0, tree_spec(src)[1], Seq::empty(), 0);
}

/// A traversal that finishes returns output of exactly the declared
/// length: the completion test fires on the byte that reaches it.
proof fn lemma_run_ok_length(src: Seq<u8>, pos: int, entry: u8, out: Seq<u8>, n: int)
    requires
        run(src, pos, entry, out, n) is Ok,
    ensures
        run(src, pos, entry, out, n)->Ok_0.len() == out_len_spec(src),
    decreases total_bits(src) - n,
{
    if 0 <= n && n < total_bits(src) {
        let tree = tree_spec(src);
        let next = pos + (entry & 0x3f) + 1;
        if next <= tree[0] {
            let taken = bit_at(src, n);
            let new_entry = if taken {
                tree[2 * next + 1]
            } else {
                tree[2 * next]
            };
            let leaf = if taken {
                entry & 0x40 != 0
            } else {
                entry & 0x80 != 0
            };
            if leaf && out.push(new_entry).len() != out_len_spec(src) {
                lemma_run_ok_length(src, 0, tree[1], out.push(new_entry), n + 1);
            } else if !leaf {
                lemma_run_ok_length(src, next, new_entry, out, n + 1);
            }
        }
    }
}

/// A successful decode yields exactly the declared number of output
/// bytes: the payload is filled left to right and returned only once
/// full, and a declared length of zero yields the empty payload.
pub proof fn lemma_decode_ok_length(src: Seq<u8>)
    requires
        decode_spec(src) is Ok,
    ensures
        decode_spec(src)->Ok_0.len() == out_len_spec(src),
{
    if out_len_spec(src) != 0 {
        lemma_run_ok_length(src, 0, tree_spec(src)[1], Seq::empty(), 0);
    }
}

/// Decodes a Huffman-encoded source buffer into a new buffer.
///
/// The source must begin with the format discriminator byte `0x28`,
/// followed by the 24-bit declared output length, the tree descriptor and
/// the bit-packed payload. The result is exactly what `decode_spec` says:
/// either the fully decoded payload — always exactly as long as the
/// declared length, the empty payload when it declares zero — or the first
/// error the traversal hits.
pub fn decode(src_buf: &[u8]) -> (r: Result<Vec<u8>, DecodeError>)
    ensures
        match r {
            Ok(v) => decode_spec(src_buf@) == Ok::<Seq<u8>, DecodeError>(v@),
            Err(e) => decode_spec(src_buf@) == Err::<Seq<u8>, DecodeError>(e),
        },
        src_buf@.len() <= 6 ==> r == Err::<Vec<u8>, DecodeError>(DecodeError::BufferTooSmall),
        src_buf@.len() > 6 && src_buf@[0] != HUFFMAN_MODE ==> r == Err::<Vec<u8>, DecodeError>(
            DecodeError::UnsupportedFormat,
        ),
{
    let len = src_buf.len();
    if len <= 6 {
        return Err(DecodeError::BufferTooSmall);
    }
    if src_buf[0] != HUFFMAN_MODE {
        return Err(DecodeError::UnsupportedFormat);
    }
    let extra_size = src_buf[4];
    let mag: usize = 6 + 2 * (extra_size as usize);
    if len <= mag {
        return Err(DecodeError::UnsupportedFormat);
    }
    let out_length: usize = (src_buf[1] as usize) + 0x100 * (src_buf[2] as usize) + 0x10000 * (
    src_buf[3] as usize);
    if out_length == 0 {
        let empty: Vec<u8> = Vec::new();
        assert(empty@ =~= Seq::<u8>::empty());
        return Ok(empty);
    }
    let tree = slice_subrange(src_buf, 4, mag);
    let node_bound = tree[0];
    let mut entry = tree[1];
    let mut pos: usize = 0;
    let mut out: Vec<u8> = Vec::new();
    let mut sp: usize = mag;
    let ghost mut c: int = 0;
    let ghost mut n: int = 0;
    while len - sp >= 4
        invariant
            src_buf@.len() == len,
            6 < len,
            src_buf@[0] == HUFFMAN_MODE,
            extra_size == src_buf@[4],
            mag == mag_idx(src_buf@),
            mag < len,
            out_length == out_len_spec(src_buf@),
            tree@ == tree_spec(src_buf@),
            tree@.len() == 2 + 2 * (extra_size as int),
            node_bound == extra_size,
            sp == mag + 4 * c,
            0 <= c,
            sp <= len,
            n == 32 * c,
            pos <= node_bound,
            0 < out_length,
            out@.len() < out_length,
            decode_spec(src_buf@) == run(src_buf@, pos as int, entry, out@, n),
        decreases len - sp,
    {
        let mut jj: usize = 0;
        while jj < 4
            invariant
                src_buf@.len() == len,
                6 < len,
                src_buf@[0] == HUFFMAN_MODE,
                extra_size == src_buf@[4],
                mag == mag_idx(src_buf@),
                mag < len,
                out_length == out_len_spec(src_buf@),
                tree@ == tree_spec(src_buf@),
                tree@.len() == 2 + 2 * (extra_size as int),
                node_bound == extra_size,
                sp == mag + 4 * c,
                0 <= c,
                len - sp >= 4,
                jj <= 4,
                n == 32 * c + 8 * jj,
                pos <= node_bound,
                0 < out_length,
                out@.len() < out_length,
                decode_spec(src_buf@) == run(src_buf@, pos as int, entry, out@, n),
            decreases 4 - jj,
        {
            let sq = sp + 3 - jj;
            let mut kb: usize = 0;
            while kb < 8
                invariant
                    src_buf@.len() == len,
                    6 < len,
                    src_buf@[0] == HUFFMAN_MODE,
                    extra_size == src_buf@[4],
                    mag == mag_idx(src_buf@),
                    mag < len,
                    out_length == out_len_spec(src_buf@),
                    tree@ == tree_spec(src_buf@),
                    tree@.len() == 2 + 2 * (extra_size as int),
                    node_bound == extra_size,
                    sp == mag + 4 * c,
                    0 <= c,
                    len - sp >= 4,
                    jj < 4,
                    sq == sp + 3 - jj,
                    kb <= 8,
                    n == 32 * c + 8 * jj + kb,
                    pos <= node_bound,
                    0 < out_length,
                    out@.len() < out_length,
                    decode_spec(src_buf@) == run(src_buf@, pos as int, entry, out@, n),
                decreases 8 - kb,
            {
                proof {
                    lemma_chunk_lower_bound(len as int, mag as int, c);
                    lemma_bit_coords(c, jj as int, kb as int);
                }
                assert(0 <= n && n < total_bits(src_buf@));
                assert(bit_byte_idx(src_buf@, n) == sq as int);
                assert(bit_mask(n) == 128u8 >> (kb as u8));
                let ghost pos0 = pos as int;
                let ghost entry0 = entry;
                let ghost out0 = out@;
                let ghost n0 = n;
                let k: u8 = 128u8 >> (kb as u8);
                let next: usize = pos + ((entry & 0x3f) as usize) + 1;
                if next > node_bound as usize {
                    assert(run(src_buf@, pos0, entry0, out0, n0) == Err::<
                        Seq<u8>,
                        DecodeError,
                    >(DecodeError::TreeOverflow));
                    return Err(DecodeError::TreeOverflow);
                }
                let bitset = src_buf[sq] & k != 0;
                assert(bitset == bit_at(src_buf@, n));
                let prev_entry = entry;
                if bitset {
                    entry = tree[2 * next + 1];
                } else {
                    entry = tree[2 * next];
                }
                let isleaf = if bitset {
                    prev_entry & 0x40 != 0
                } else {
                    prev_entry & 0x80 != 0
                };
                if isleaf {
                    out.push(entry);
                    if out.len() == out_length {
                        if len - sp != 4 {
                            assert(run(src_buf@, pos0, entry0, out0, n0) == Err::<
                                Seq<u8>,
                                DecodeError,
                            >(DecodeError::TrailingBytes((len - sp) as usize)));
                            return Err(DecodeError::TrailingBytes(len - sp));
                        }
                        assert(run(src_buf@, pos0, entry0, out0, n0) == Ok::<
                            Seq<u8>,
                            DecodeError,
                        >(out@));
                        return Ok(out);
                    }
                    entry = tree[1];
                    pos = 0;
                } else {
                    pos = next;
                }
                proof {
                    n = n + 1;
                }
                assert(run(src_buf@, pos0, entry0, out0, n0) == run(
                    src_buf@,
                    pos as int,
                    entry,
                    out@,
                    n,
                ));
                kb = kb + 1;
            }
            jj = jj + 1;
        }
        sp = sp + 4;
        proof {
            c = c + 1;
        }
    }
    proof {
        lemma_chunk_exact(len as int, mag as int, c);
    }
    assert(n == total_bits(src_buf@));
    assert(run(src_buf@, pos as int, entry, out@, n) == Err::<Seq<u8>, DecodeError>(
        DecodeError::TruncatedInput((out_length - out@.len()) as usize),
    ));
    Err(DecodeError::TruncatedInput(out_length - out.len()))
}

} // verus!
