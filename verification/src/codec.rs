//! Layout of the wire format: packing of 32-bit words into 64-bit words,
//! of bytes into blocks, and of headers and descriptors into block sequences.
//! All integers are little-endian.

use vstd::prelude::*;
use vstd::bytes::{
    spec_u64_from_le_bytes, spec_u64_to_le_bytes, lemma_auto_spec_u64_to_from_le_bytes,
    u64_from_le_bytes, u64_to_le_bytes,
};
use crate::{array32, lemma_array32_view, Block, Descriptor, Header, InfoHeader, Section};

verus! {

/// The 64-bit word holding `lo` in its low half and `hi` in its high half.
pub open spec fn pack64(lo: u32, hi: u32) -> u64 {
    (lo as u64) | ((hi as u64) << 32)
}

/// The low 32 bits of a 64-bit word.
pub open spec fn lo32(w: u64) -> u32 {
    (w & 0xffff_ffff) as u32
}

/// The high 32 bits of a 64-bit word.
pub open spec fn hi32(w: u64) -> u32 {
    (w >> 32) as u32
}

/// Unpacking a packed pair of words gives the words back.
pub proof fn lemma_unpack_pack(lo: u32, hi: u32)
    ensures
        lo32(pack64(lo, hi)) == lo,
        hi32(pack64(lo, hi)) == hi,
{
    assert(((((lo as u64) | ((hi as u64) << 32)) & 0xffff_ffff) as u32) == lo) by (bit_vector);
    assert(((((lo as u64) | ((hi as u64) << 32)) >> 32) as u32) == hi) by (bit_vector);
}

/// Packing the two halves of a word gives the word back.
pub proof fn lemma_pack_unpack(w: u64)
    ensures
        pack64(lo32(w), hi32(w)) == w,
{
    assert(((((w & 0xffff_ffff) as u32) as u64) | (((((w >> 32) as u32)) as u64) << 32)) == w)
        by (bit_vector);
}

/// Packs two 32-bit words into one little-endian 64-bit word.
pub fn pack_words(lo: u32, hi: u32) -> (r: u64)
    ensures
        r == pack64(lo, hi),
{
    (lo as u64) | ((hi as u64) << 32)
}

/// The low 32 bits of a word.
pub fn word_lo(w: u64) -> (r: u32)
    ensures
        r == lo32(w),
{
    (w & 0xffff_ffff) as u32
}

/// The high 32 bits of a word.
pub fn word_hi(w: u64) -> (r: u32)
    ensures
        r == hi32(w),
{
    proof {
        assert((w >> 32) <= 0xffff_ffffu64) by (bit_vector);
    }
    (w >> 32) as u32
}

/// The 16 bytes of a block, little-endian word by word.
pub open spec fn block_bytes(b: Block) -> Seq<u8> {
    spec_u64_to_le_bytes(b[0]) + spec_u64_to_le_bytes(b[1])
}

/// The block encoded by 16 bytes.
pub open spec fn block_of_bytes(s: Seq<u8>) -> Block {
    [spec_u64_from_le_bytes(s.subrange(0, 8)), spec_u64_from_le_bytes(s.subrange(8, 16))]
}

/// A block's bytes decode to the block, and 16 bytes re-encode to themselves.
pub proof fn lemma_block_bytes_round_trip(b: Block, s: Seq<u8>)
    requires
        s.len() == 16,
    ensures
        block_bytes(b).len() == 16,
        block_of_bytes(block_bytes(b)) == b,
        block_bytes(block_of_bytes(s)) == s,
{
    lemma_auto_spec_u64_to_from_le_bytes();
    assert(block_bytes(b).subrange(0, 8) =~= spec_u64_to_le_bytes(b[0]));
    assert(block_bytes(b).subrange(8, 16) =~= spec_u64_to_le_bytes(b[1]));
    assert(block_of_bytes(block_bytes(b)) =~= b);
    assert(block_bytes(block_of_bytes(s)) =~= spec_u64_to_le_bytes(
        spec_u64_from_le_bytes(s.subrange(0, 8)),
    ) + spec_u64_to_le_bytes(spec_u64_from_le_bytes(s.subrange(8, 16))));
    assert(block_bytes(block_of_bytes(s)) =~= s);
}

/// The bytes of a block sequence, in order.
pub open spec fn blocks_bytes(s: Seq<Block>) -> Seq<u8>
    decreases s.len(),
{
    if s.len() == 0 {
        Seq::empty()
    } else {
        block_bytes(s[0]) + blocks_bytes(s.drop_first())
    }
}

/// A sequence of blocks holds 16 bytes per block.
pub proof fn lemma_blocks_bytes_len(s: Seq<Block>)
    ensures
        blocks_bytes(s).len() == 16 * s.len(),
    decreases s.len(),
{
    if s.len() > 0 {
        lemma_blocks_bytes_len(s.drop_first());
        lemma_block_bytes_round_trip(s[0], Seq::new(16, |i: int| 0u8));
    }
}

/// Byte `p` of a block sequence is byte `p % 16` of block `p / 16`.
pub proof fn lemma_blocks_bytes_index(s: Seq<Block>, p: int)
    requires
        0 <= p < 16 * s.len(),
    ensures
        blocks_bytes(s)[p] == block_bytes(s[p / 16])[p % 16],
    decreases s.len(),
{
    lemma_blocks_bytes_len(s);
    lemma_block_bytes_round_trip(s[0], Seq::new(16, |i: int| 0u8));
    if p < 16 {
        assert(p / 16 == 0 && p % 16 == p);
    } else {
        lemma_blocks_bytes_index(s.drop_first(), p - 16);
        lemma_blocks_bytes_len(s.drop_first());
        assert((p - 16) / 16 == p / 16 - 1 && (p - 16) % 16 == p % 16);
    }
}

/// Copies a block out into its 16 little-endian bytes.
pub fn block_to_bytes(b: &Block) -> (r: [u8; 16])
    ensures
        r@ == block_bytes(*b),
{
    proof {
        lemma_auto_spec_u64_to_from_le_bytes();
    }
    let v0 = u64_to_le_bytes(b[0]);
    let v1 = u64_to_le_bytes(b[1]);
    let mut r = [0u8; 16];
    let mut i: usize = 0;
    while i < 8
        invariant
            i <= 8,
            v0@ == spec_u64_to_le_bytes(b[0]),
            v1@ == spec_u64_to_le_bytes(b[1]),
            v0@.len() == 8,
            v1@.len() == 8,
            forall|j: int| 0 <= j < i ==> r@[j] == v0@[j],
            forall|j: int| 0 <= j < i ==> r@[8 + j] == v1@[j],
        decreases 8 - i,
    {
        r[i] = v0[i];
        r[8 + i] = v1[i];
        i = i + 1;
    }
    proof {
        assert(r@ =~= block_bytes(*b));
    }
    r
}

/// Reads a block from 16 little-endian bytes.
pub fn block_from_bytes(s: &[u8]) -> (r: Block)
    requires
        s@.len() == 16,
    ensures
        r == block_of_bytes(s@),
        block_bytes(r) == s@,
{
    let w0 = u64_from_le_bytes(&s[0..8]);
    let w1 = u64_from_le_bytes(&s[8..16]);
    proof {
        lemma_block_bytes_round_trip([w0, w1], s@);
    }
    [w0, w1]
}

/// Little-endian word `k` of a byte sequence.
pub open spec fn qword(s: Seq<u8>, k: int) -> u64 {
    spec_u64_from_le_bytes(s.subrange(8 * k, 8 * k + 8))
}

/// The four 16-byte blocks a descriptor serialises to: types and addresses
/// packed as 32-bit words, then the nonce, then the 32-byte name buffer.
pub open spec fn desc_blocks(d: Descriptor) -> Seq<Block> {
    seq![
        [pack64(d.content_type, d.content_size), pack64(d.section.offset, d.section.size)],
        d.section.nonce,
        [qword(d.name_buf@, 0), qword(d.name_buf@, 1)],
        [qword(d.name_buf@, 2), qword(d.name_buf@, 3)],
    ]
}

/// The descriptor encoded by four blocks.
pub open spec fn blocks_desc(b: Seq<Block>) -> Descriptor {
    Descriptor {
        content_type: lo32(b[0][0]),
        content_size: hi32(b[0][0]),
        section: Section { offset: lo32(b[0][1]), size: hi32(b[0][1]), nonce: b[1] },
        name_buf: array32(
            spec_u64_to_le_bytes(b[2][0]) + spec_u64_to_le_bytes(b[2][1]) + spec_u64_to_le_bytes(
                b[3][0],
            ) + spec_u64_to_le_bytes(b[3][1]),
        ),
    }
}

/// A descriptor's blocks decode to the descriptor, and four blocks re-encode
/// to themselves: the two forms are in bijection.
pub proof fn lemma_desc_blocks_round_trip(d: Descriptor, b: Seq<Block>)
    requires
        b.len() == 4,
    ensures
        desc_blocks(d).len() == 4,
        blocks_desc(desc_blocks(d)) == d,
        desc_blocks(blocks_desc(b)) == b,
    decreases b.len(),
{
    lemma_auto_spec_u64_to_from_le_bytes();
    // Decoding the encoded descriptor gives the descriptor back.
    lemma_unpack_pack(d.content_type, d.content_size);
    lemma_unpack_pack(d.section.offset, d.section.size);
    let nb = d.name_buf@;
    let cat = spec_u64_to_le_bytes(qword(nb, 0)) + spec_u64_to_le_bytes(qword(nb, 1))
        + spec_u64_to_le_bytes(qword(nb, 2)) + spec_u64_to_le_bytes(qword(nb, 3));
    assert(cat =~= nb);
    lemma_array32_view(cat);
    assert(blocks_desc(desc_blocks(d)).name_buf =~= d.name_buf);
    assert(blocks_desc(desc_blocks(d)) == d);
    // Encoding the decoded blocks gives the blocks back.
    lemma_pack_unpack(b[0][0]);
    lemma_pack_unpack(b[0][1]);
    let v = blocks_desc(b);
    let cat2 = spec_u64_to_le_bytes(b[2][0]) + spec_u64_to_le_bytes(b[2][1])
        + spec_u64_to_le_bytes(b[3][0]) + spec_u64_to_le_bytes(b[3][1]);
    lemma_array32_view(cat2);
    assert(v.name_buf@ == cat2);
    assert(cat2.subrange(0, 8) =~= spec_u64_to_le_bytes(b[2][0]));
    assert(cat2.subrange(8, 16) =~= spec_u64_to_le_bytes(b[2][1]));
    assert(cat2.subrange(16, 24) =~= spec_u64_to_le_bytes(b[3][0]));
    assert(cat2.subrange(24, 32) =~= spec_u64_to_le_bytes(b[3][1]));
    assert(desc_blocks(v)[0] =~= b[0]);
    assert(desc_blocks(v)[1] =~= b[1]);
    assert(desc_blocks(v)[2] =~= b[2]);
    assert(desc_blocks(v)[3] =~= b[3]);
    assert(desc_blocks(v) =~= b);
}

/// Serialises a descriptor into its four blocks.
pub fn desc_to_blocks(d: &Descriptor) -> (r: [Block; 4])
    ensures
        r@ == desc_blocks(*d),
{
    let b0: Block = [
        pack_words(d.content_type, d.content_size),
        pack_words(d.section.offset, d.section.size),
    ];
    let q0 = u64_from_le_bytes(&d.name_buf[0..8]);
    let q1 = u64_from_le_bytes(&d.name_buf[8..16]);
    let q2 = u64_from_le_bytes(&d.name_buf[16..24]);
    let q3 = u64_from_le_bytes(&d.name_buf[24..32]);
    let r = [b0, d.section.nonce, [q0, q1], [q2, q3]];
    proof {
        assert(r@ =~= desc_blocks(*d));
    }
    r
}

/// Reads a descriptor back from four blocks.
pub fn desc_from_blocks(b: &[Block; 4]) -> (r: Descriptor)
    ensures
        r == blocks_desc(b@),
{
    proof {
        lemma_auto_spec_u64_to_from_le_bytes();
    }
    let lo = block_to_bytes(&b[2]);
    let hi = block_to_bytes(&b[3]);
    let mut name_buf = [0u8; 32];
    let mut i: usize = 0;
    while i < 16
        invariant
            i <= 16,
            lo@ == block_bytes(b@[2]),
            hi@ == block_bytes(b@[3]),
            forall|j: int| 0 <= j < i ==> name_buf@[j] == lo@[j],
            forall|j: int| 0 <= j < i ==> name_buf@[16 + j] == hi@[j],
        decreases 16 - i,
    {
        name_buf[i] = lo[i];
        name_buf[16 + i] = hi[i];
        i = i + 1;
    }
    let r = Descriptor {
        content_type: word_lo(b[0][0]),
        content_size: word_hi(b[0][0]),
        section: Section { offset: word_lo(b[0][1]), size: word_hi(b[0][1]), nonce: b[1] },
        name_buf,
    };
    proof {
        let cat = spec_u64_to_le_bytes(b@[2][0]) + spec_u64_to_le_bytes(b@[2][1])
            + spec_u64_to_le_bytes(b@[3][0]) + spec_u64_to_le_bytes(b@[3][1]);
        lemma_array32_view(cat);
        assert(cat.len() == 32);
        assert forall|m: int| 0 <= m < 32 implies name_buf@[m] == cat[m] by {
            if m < 16 {
                assert(name_buf@[m] == lo@[m]);
                assert(cat[m] == block_bytes(b@[2])[m]);
            } else {
                assert(name_buf@[16 + (m - 16)] == hi@[m - 16]);
                assert(cat[m] == block_bytes(b@[3])[m - 16]);
            }
        }
        assert(name_buf@ =~= cat);
        assert(name_buf =~= array32(cat));
    }
    r
}

/// The five 16-byte blocks a header serialises to: the HMAC words packed in
/// pairs, then the IV, then the two info blocks.
pub open spec fn header_blocks(h: Header) -> Seq<Block> {
    seq![
        [pack64(h.hmac[0], h.hmac[1]), pack64(h.hmac[2], h.hmac[3])],
        [pack64(h.hmac[4], h.hmac[5]), pack64(h.hmac[6], h.hmac[7])],
        h.iv,
        [pack64(h.info.version, h.info.unused[0]), pack64(
            h.info.directory.offset,
            h.info.directory.size,
        )],
        h.info.directory.nonce,
    ]
}

/// The header encoded by five blocks.
pub open spec fn blocks_header(b: Seq<Block>) -> Header {
    Header {
        hmac: [
            lo32(b[0][0]),
            hi32(b[0][0]),
            lo32(b[0][1]),
            hi32(b[0][1]),
            lo32(b[1][0]),
            hi32(b[1][0]),
            lo32(b[1][1]),
            hi32(b[1][1]),
        ],
        iv: b[2],
        info: InfoHeader {
            version: lo32(b[3][0]),
            unused: [hi32(b[3][0])],
            directory: Section { offset: lo32(b[3][1]), size: hi32(b[3][1]), nonce: b[4] },
        },
    }
}

/// Serialises a header into its five blocks.
pub fn header_to_blocks(h: &Header) -> (r: [Block; 5])
    ensures
        r@ == header_blocks(*h),
{
    let r = [
        [pack_words(h.hmac[0], h.hmac[1]), pack_words(h.hmac[2], h.hmac[3])],
        [pack_words(h.hmac[4], h.hmac[5]), pack_words(h.hmac[6], h.hmac[7])],
        h.iv,
        [pack_words(h.info.version, h.info.unused[0]), pack_words(
            h.info.directory.offset,
            h.info.directory.size,
        )],
        h.info.directory.nonce,
    ];
    proof {
        assert(r@ =~= header_blocks(*h));
    }
    r
}

/// Reads a header back from five blocks.
pub fn header_from_blocks(b: &[Block; 5]) -> (r: Header)
    ensures
        r == blocks_header(b@),
{
    let r = Header {
        hmac: [
            word_lo(b[0][0]),
            word_hi(b[0][0]),
            word_lo(b[0][1]),
            word_hi(b[0][1]),
            word_lo(b[1][0]),
            word_hi(b[1][0]),
            word_lo(b[1][1]),
            word_hi(b[1][1]),
        ],
        iv: b[2],
        info: InfoHeader {
            version: word_lo(b[3][0]),
            unused: [word_hi(b[3][0])],
            directory: Section { offset: word_lo(b[3][1]), size: word_hi(b[3][1]), nonce: b[4] },
        },
    };
    proof {
        assert(r.hmac =~= blocks_header(b@).hmac);
        assert(r.info.unused =~= blocks_header(b@).info.unused);
    }
    r
}

} // verus!
