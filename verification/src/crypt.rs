//! The crypt layer: CBC over the header's two info blocks, counter-mode XOR
//! streams for directory descriptors and file payloads, and byte-accurate
//! ranged encryption and decryption within block sequences.

use vstd::prelude::*;
use vstd::wrapping::u64_specs;
use crate::{speck128, Block, Descriptor, Header, InfoHeader, Key, Section};
use crate::codec::{
    block_bytes, block_to_bytes, block_from_bytes, blocks_bytes, blocks_desc, desc_blocks,
    desc_from_blocks, desc_to_blocks, hi32, lo32, lemma_blocks_bytes_index, lemma_blocks_bytes_len,
    lemma_desc_blocks_round_trip, lemma_pack_unpack, lemma_unpack_pack, pack64, pack_words,
    word_hi, word_lo,
};

verus! {

broadcast use vstd::array::group_array_axioms;

/// The word-wise XOR of two blocks.
pub open spec fn xor_spec(a: Block, b: Block) -> Block {
    [a[0] ^ b[0], a[1] ^ b[1]]
}

/// XORing twice by the same block is the identity.
pub proof fn lemma_xor_involution(a: Block, b: Block)
    ensures
        xor_spec(xor_spec(a, b), b) == a,
{
    assert(forall|p: u64, q: u64| ((p ^ q) ^ q) == p) by (bit_vector);
    assert(xor_spec(xor_spec(a, b), b) =~= a);
}

/// XORing a block with itself gives the zero block.
pub proof fn lemma_xor_self(a: Block)
    ensures
        xor_spec(a, a) == [0u64, 0u64],
{
    assert(forall|p: u64| (p ^ p) == 0u64) by (bit_vector);
    assert(xor_spec(a, a) =~= [0u64, 0u64]);
}

/// Every byte of the zero block is zero.
proof fn lemma_zero_block_bytes()
    ensures
        block_bytes([0u64, 0u64]).len() == 16,
        forall|m: int| 0 <= m < 16 ==> block_bytes([0u64, 0u64])[m] == 0,
{
    vstd::bytes::lemma_auto_spec_u64_to_from_le_bytes();
    vstd::bytes::spec_u64_to_le_bytes_to_open(0u64);
    let s = vstd::bytes::spec_u64_to_le_bytes(0u64);
    assert((0u64 & 0xff) == 0 && ((0u64 >> 8) & 0xff) == 0 && ((0u64 >> 16) & 0xff) == 0 && ((0u64
        >> 24) & 0xff) == 0 && ((0u64 >> 32) & 0xff) == 0 && ((0u64 >> 40) & 0xff) == 0 && ((0u64
        >> 48) & 0xff) == 0 && ((0u64 >> 56) & 0xff) == 0) by (bit_vector);
    assert forall|j: int| 0 <= j < 8 implies s[j] == 0 by {
        if j == 0 {
            assert(s[0] == (0u64 & 0xff) as u8);
        } else if j == 1 {
            assert(s[1] == ((0u64 >> 8) & 0xff) as u8);
        } else if j == 2 {
            assert(s[2] == ((0u64 >> 16) & 0xff) as u8);
        } else if j == 3 {
            assert(s[3] == ((0u64 >> 24) & 0xff) as u8);
        } else if j == 4 {
            assert(s[4] == ((0u64 >> 32) & 0xff) as u8);
        } else if j == 5 {
            assert(s[5] == ((0u64 >> 40) & 0xff) as u8);
        } else if j == 6 {
            assert(s[6] == ((0u64 >> 48) & 0xff) as u8);
        } else {
            assert(s[7] == ((0u64 >> 56) & 0xff) as u8);
        }
    }
}

/// XORs two blocks word by word.
pub fn xor(a: Block, b: Block) -> (r: Block)
    ensures
        r == xor_spec(a, b),
{
    let r = [a[0] ^ b[0], a[1] ^ b[1]];
    proof {
        assert(r =~= xor_spec(a, b));
    }
    r
}

/// The counter block `ctr` steps after `nonce`: the low word is kept and the
/// high word advances by `ctr`, wrapping modulo 2^64.
pub open spec fn counter_spec(nonce: Block, ctr: u64) -> Block {
    [nonce[0], u64_specs::wrapping_add(nonce[1], ctr)]
}

/// Advancing a counter twice is advancing it once by the sum.
pub proof fn lemma_counter_add(nonce: Block, a: u64, b: u64)
    ensures
        counter_spec(counter_spec(nonce, a), b) == counter_spec(
            nonce,
            u64_specs::wrapping_add(a, b),
        ),
{
    assert(counter_spec(counter_spec(nonce, a), b) =~= counter_spec(
        nonce,
        u64_specs::wrapping_add(a, b),
    ));
}

/// Advances the nonce counter by `ctr` blocks.
pub fn counter(nonce: &Block, ctr: usize) -> (r: Block)
    ensures
        r == counter_spec(*nonce, ctr as u64),
{
    let r = [nonce[0], nonce[1].wrapping_add(ctr as u64)];
    proof {
        assert(r =~= counter_spec(*nonce, ctr as u64));
    }
    r
}

/// Keystream block `i` for a section: the encryption of the counter block.
pub open spec fn keystream(nonce: Block, key: Key, i: int) -> Block
    recommends
        0 <= i < 0x1_0000_0000_0000_0000,
{
    speck128::speck_encrypt(counter_spec(nonce, i as u64), key)
}

/// Relies on getrandom::getrandom: fills the buffer with cryptographically
/// strong random bytes. A failure of the system's random source is the one
/// unrecoverable error of the engine and aborts.
#[verifier::external_body]
pub(crate) fn random_block() -> Block {
    let mut buf = [0u8; 16];
    getrandom::getrandom(&mut buf).expect("random source failed");
    [
        u64::from_le_bytes(buf[0..8].try_into().unwrap()),
        u64::from_le_bytes(buf[8..16].try_into().unwrap()),
    ]
}

/// Fills the blocks with fresh randomness.
pub fn random(blocks: &mut [Block])
    ensures
        final(blocks)@.len() == old(blocks)@.len(),
{
    let mut i: usize = 0;
    while i < blocks.len()
        invariant
            blocks@.len() == old(blocks)@.len(),
            i <= blocks@.len(),
        decreases blocks@.len() - i,
    {
        blocks[i] = random_block();
        i = i + 1;
    }
}

/// How the unmentioned bytes of a partial block are filled when encrypting.
#[derive(Copy, Clone, Debug, PartialEq, Eq)]
pub enum Pad {
    /// The other bytes of a partial block become zero: for sections that have
    /// never been written.
    Zero,
    /// The other bytes of a partial block keep their current plaintext: for
    /// in-place updates of initialised sections.
    Transparent,
}

//----------------------------------------------------------------
// Header

/// The first info block of a header: version and padding word, then the
/// directory's offset and size.
pub open spec fn info_block0(h: Header) -> Block {
    [pack64(h.info.version, h.info.unused[0]), pack64(
        h.info.directory.offset,
        h.info.directory.size,
    )]
}

/// The header with its two info blocks replaced by `b3` and `b4`.
pub open spec fn header_with_info(h: Header, b3: Block, b4: Block) -> Header {
    Header {
        hmac: h.hmac,
        iv: h.iv,
        info: InfoHeader {
            version: lo32(b3[0]),
            unused: [hi32(b3[0])],
            directory: Section { offset: lo32(b3[1]), size: hi32(b3[1]), nonce: b4 },
        },
    }
}

/// CBC encryption of the header: only the two info blocks change, chained
/// from the stored IV.
pub open spec fn encrypt_header_spec(h: Header, key: Key) -> Header {
    let c3 = xor_spec(speck128::speck_encrypt(info_block0(h), key), h.iv);
    let c4 = xor_spec(speck128::speck_encrypt(h.info.directory.nonce, key), c3);
    header_with_info(h, c3, c4)
}

/// CBC decryption of the header, inverting `encrypt_header_spec`.
pub open spec fn decrypt_header_spec(h: Header, key: Key) -> Header {
    let c3 = info_block0(h);
    let c4 = h.info.directory.nonce;
    let b4 = speck128::speck_decrypt(xor_spec(c4, c3), key);
    let b3 = speck128::speck_decrypt(xor_spec(c3, h.iv), key);
    header_with_info(h, b3, b4)
}

/// Rebuilding a header from its own info blocks changes nothing.
proof fn lemma_header_with_info_self(h: Header)
    ensures
        header_with_info(h, info_block0(h), h.info.directory.nonce) == h,
{
    lemma_unpack_pack(h.info.version, h.info.unused[0]);
    lemma_unpack_pack(h.info.directory.offset, h.info.directory.size);
    let r = header_with_info(h, info_block0(h), h.info.directory.nonce);
    assert(r.info.unused =~= h.info.unused);
    assert(r =~= h);
}

/// Header round-trip: decrypting an encrypted header restores it exactly,
/// for every header and key.
pub proof fn lemma_header_round_trip(h: Header, key: Key)
    ensures
        decrypt_header_spec(encrypt_header_spec(h, key), key) == h,
        decrypt_header_spec(encrypt_header_spec(h, key), key).info == h.info,
{
    let b3 = info_block0(h);
    let b4 = h.info.directory.nonce;
    let c3 = xor_spec(speck128::speck_encrypt(b3, key), h.iv);
    let c4 = xor_spec(speck128::speck_encrypt(b4, key), c3);
    let e = encrypt_header_spec(h, key);
    lemma_pack_unpack(c3[0]);
    lemma_pack_unpack(c3[1]);
    assert(info_block0(e) =~= c3);
    assert(e.info.directory.nonce == c4);
    lemma_xor_involution(speck128::speck_encrypt(b4, key), c3);
    lemma_xor_involution(speck128::speck_encrypt(b3, key), h.iv);
    speck128::lemma_cipher_round_trip(b3, key);
    speck128::lemma_cipher_round_trip(b4, key);
    lemma_header_with_info_self(h);
}

/// Decrypts the header in place, in CBC mode of operation.
pub fn decrypt_header_inplace(header: &mut Header, key: &Key)
    ensures
        *final(header) == decrypt_header_spec(*old(header), *key),
{
    let c3: Block = [
        pack_words(header.info.version, header.info.unused[0]),
        pack_words(header.info.directory.offset, header.info.directory.size),
    ];
    let c4 = header.info.directory.nonce;
    let b4 = speck128::decrypt(xor(c4, c3), key);
    let b3 = speck128::decrypt(xor(c3, header.iv), key);
    proof {
        assert(c3 =~= info_block0(*old(header)));
    }
    header.info.version = word_lo(b3[0]);
    header.info.unused = [word_hi(b3[0])];
    header.info.directory.offset = word_lo(b3[1]);
    header.info.directory.size = word_hi(b3[1]);
    header.info.directory.nonce = b4;
    proof {
        assert(header.info.unused =~= decrypt_header_spec(*old(header), *key).info.unused);
        assert(*header =~= decrypt_header_spec(*old(header), *key));
    }
}

/// Encrypts the header in place, in CBC mode of operation.
pub fn encrypt_header_inplace(header: &mut Header, key: &Key)
    ensures
        *final(header) == encrypt_header_spec(*old(header), *key),
{
    let b3: Block = [
        pack_words(header.info.version, header.info.unused[0]),
        pack_words(header.info.directory.offset, header.info.directory.size),
    ];
    let b4 = header.info.directory.nonce;
    let c3 = xor(speck128::encrypt(b3, key), header.iv);
    let c4 = xor(speck128::encrypt(b4, key), c3);
    proof {
        assert(b3 =~= info_block0(*old(header)));
    }
    header.info.version = word_lo(c3[0]);
    header.info.unused = [word_hi(c3[0])];
    header.info.directory.offset = word_lo(c3[1]);
    header.info.directory.size = word_hi(c3[1]);
    header.info.directory.nonce = c4;
    proof {
        assert(header.info.unused =~= encrypt_header_spec(*old(header), *key).info.unused);
        assert(*header =~= encrypt_header_spec(*old(header), *key));
    }
}

/// Decrypts an encrypted header into its info header, without mutating it.
pub fn decrypt_header(encrypted_header: &Header, key: &Key) -> (r: InfoHeader)
    ensures
        r == decrypt_header_spec(*encrypted_header, *key).info,
{
    let mut h = *encrypted_header;
    decrypt_header_inplace(&mut h, key);
    h.info
}

//----------------------------------------------------------------
// Directory

/// The counter-mode XOR of a block sequence, starting at counter zero:
/// encryption and decryption are the same stream.
pub open spec fn crypt_blocks(s: Seq<Block>, nonce: Block, key: Key) -> Seq<Block> {
    Seq::new(s.len(), |i: int| xor_spec(s[i], keystream(nonce, key, i)))
}

/// Counter-mode XOR applied twice restores the original blocks.
pub proof fn lemma_crypt_blocks_involution(s: Seq<Block>, nonce: Block, key: Key)
    ensures
        crypt_blocks(crypt_blocks(s, nonce, key), nonce, key) == s,
{
    assert forall|i: int| 0 <= i < s.len() implies crypt_blocks(crypt_blocks(s, nonce, key), nonce, key)[i]
        == s[i] by {
        lemma_xor_involution(s[i], keystream(nonce, key, i));
    }
    assert(crypt_blocks(crypt_blocks(s, nonce, key), nonce, key) =~= s);
}

/// Counter-mode encryption of `src` into `dest`.
pub fn encrypt(src: &[Block], nonce: &Block, key: &Key, dest: &mut [Block])
    requires
        src@.len() == old(dest)@.len(),
    ensures
        final(dest)@ == crypt_blocks(src@, *nonce, *key),
{
    let mut i: usize = 0;
    while i < src.len()
        invariant
            src@.len() == dest@.len(),
            i <= src@.len(),
            forall|j: int| 0 <= j < i ==> dest@[j] == crypt_blocks(src@, *nonce, *key)[j],
        decreases src@.len() - i,
    {
        dest[i] = xor(src[i], speck128::encrypt(counter(nonce, i), key));
        i = i + 1;
    }
    proof {
        assert(dest@ =~= crypt_blocks(src@, *nonce, *key));
    }
}

/// Counter-mode decryption of `src` into `dest`; the same stream as
/// encryption.
pub fn decrypt(src: &[Block], nonce: &Block, key: &Key, dest: &mut [Block])
    requires
        src@.len() == old(dest)@.len(),
    ensures
        final(dest)@ == crypt_blocks(src@, *nonce, *key),
{
    encrypt(src, nonce, key, dest)
}

/// Counter-mode XOR of the blocks in place.
pub fn crypt_inplace(blocks: &mut [Block], nonce: &Block, key: &Key)
    ensures
        final(blocks)@ == crypt_blocks(old(blocks)@, *nonce, *key),
{
    let mut i: usize = 0;
    while i < blocks.len()
        invariant
            blocks@.len() == old(blocks)@.len(),
            i <= blocks@.len(),
            forall|j: int| i <= j < blocks@.len() ==> blocks@[j] == old(blocks)@[j],
            forall|j: int| 0 <= j < i ==> blocks@[j] == crypt_blocks(old(blocks)@, *nonce, *key)[j],
        decreases blocks@.len() - i,
    {
        blocks[i] = xor(blocks[i], speck128::encrypt(counter(nonce, i), key));
        i = i + 1;
    }
    proof {
        assert(blocks@ =~= crypt_blocks(old(blocks)@, *nonce, *key));
    }
}

/// The counter-mode transform of a single descriptor, starting at counter
/// zero with the given nonce; its own inverse.
pub open spec fn crypt_desc_spec(d: Descriptor, nonce: Block, key: Key) -> Descriptor {
    blocks_desc(crypt_blocks(desc_blocks(d), nonce, key))
}

/// Descriptor round-trip: applying the counter-mode transform twice with the
/// same nonce and key restores the descriptor exactly.
pub proof fn lemma_desc_round_trip(d: Descriptor, nonce: Block, key: Key)
    ensures
        crypt_desc_spec(crypt_desc_spec(d, nonce, key), nonce, key) == d,
{
    lemma_desc_blocks_round_trip(d, desc_blocks(d));
    lemma_desc_blocks_round_trip(d, crypt_blocks(desc_blocks(d), nonce, key));
    lemma_crypt_blocks_involution(desc_blocks(d), nonce, key);
}

/// Decrypts exactly the four blocks of one descriptor, using counter mode
/// starting at counter zero with the given nonce.
pub fn decrypt_desc(encrypted_desc: &Descriptor, nonce: &Block, key: &Key) -> (r: Descriptor)
    ensures
        r == crypt_desc_spec(*encrypted_desc, *nonce, *key),
{
    let src = desc_to_blocks(encrypted_desc);
    let mut dest: [Block; 4] = [[0, 0], [0, 0], [0, 0], [0, 0]];
    let mut i: usize = 0;
    while i < 4
        invariant
            i <= 4,
            src@ == desc_blocks(*encrypted_desc),
            dest@.len() == 4,
            forall|j: int| 0 <= j < i ==> dest@[j] == crypt_blocks(src@, *nonce, *key)[j],
        decreases 4 - i,
    {
        dest[i] = xor(src[i], speck128::encrypt(counter(nonce, i), key));
        i = i + 1;
    }
    proof {
        assert(dest@ =~= crypt_blocks(src@, *nonce, *key));
    }
    desc_from_blocks(&dest)
}

/// Whether a directory section's block range lies within the archive.
pub open spec fn dir_in_range(blocks_len: int, sec: Section) -> bool {
    sec.offset + sec.size * 4 <= blocks_len
}

/// The plaintext directory encoded in the archive's directory section:
/// descriptor `k` is read from the four blocks at `offset + 4k`, decrypted
/// with counters `4k .. 4k + 4`.
pub open spec fn decrypt_dir_spec(blocks: Seq<Block>, sec: Section, key: Key) -> Seq<Descriptor> {
    Seq::new(
        sec.size as nat,
        |k: int|
            blocks_desc(
                Seq::new(
                    4,
                    |j: int|
                        xor_spec(
                            blocks[sec.offset + 4 * k + j],
                            keystream(sec.nonce, key, 4 * k + j),
                        ),
                ),
            ),
    )
}

/// Decrypts the directory section into a plaintext descriptor vector; a
/// section that reaches outside the blocks yields an empty directory.
pub fn decrypt_dir(blocks: &[Block], dir_section: &Section, key: &Key) -> (r: Vec<Descriptor>)
    ensures
        dir_in_range(blocks@.len() as int, *dir_section) ==> r@ == decrypt_dir_spec(
            blocks@,
            *dir_section,
            *key,
        ),
        !dir_in_range(blocks@.len() as int, *dir_section) ==> r@.len() == 0,
{
    let mut r: Vec<Descriptor> = Vec::new();
    if (dir_section.offset as u64) + (dir_section.size as u64) * 4 > blocks.len() as u64 {
        return r;
    }
    let off = dir_section.offset as usize;
    let size = dir_section.size as usize;
    let mut k: usize = 0;
    while k < size
        invariant
            k <= size,
            off == dir_section.offset,
            size == dir_section.size,
            off + size * 4 <= blocks@.len(),
            blocks@.len() <= usize::MAX,
            r@.len() == k,
            forall|m: int| 0 <= m < k ==> r@[m] == decrypt_dir_spec(blocks@, *dir_section, *key)[m],
        decreases size - k,
    {
        let base = off + 4 * k;
        let mut eb: [Block; 4] = [[0, 0], [0, 0], [0, 0], [0, 0]];
        let mut j: usize = 0;
        while j < 4
            invariant
                j <= 4,
                k < size,
                off == dir_section.offset,
                size == dir_section.size,
                off + size * 4 <= blocks@.len(),
                blocks@.len() <= usize::MAX,
                base == off + 4 * k,
                eb@.len() == 4,
                forall|m: int|
                    0 <= m < j ==> eb@[m] == xor_spec(
                        blocks@[base + m],
                        keystream(dir_section.nonce, *key, 4 * k + m),
                    ),
            decreases 4 - j,
        {
            eb[j] = xor(blocks[base + j], speck128::encrypt(counter(&dir_section.nonce, 4 * k + j), key));
            j = j + 1;
        }
        let d = desc_from_blocks(&eb);
        proof {
            assert(eb@ =~= Seq::new(
                4,
                |m: int|
                    xor_spec(
                        blocks@[dir_section.offset + 4 * (k as int) + m],
                        keystream(dir_section.nonce, *key, 4 * (k as int) + m),
                    ),
            ));
        }
        r.push(d);
        k = k + 1;
    }
    proof {
        assert(r@ =~= decrypt_dir_spec(blocks@, *dir_section, *key));
    }
    r
}

/// Encrypts each descriptor of a plaintext directory in place: descriptor
/// `k` is transformed with counters `4k .. 4k + 4` from the base nonce.
pub fn encrypt_dir_inplace(dir: &mut [Descriptor], nonce: &Block, key: &Key)
    requires
        old(dir)@.len() * 4 <= usize::MAX,
    ensures
        final(dir)@.len() == old(dir)@.len(),
        forall|k: int|
            0 <= k < old(dir)@.len() ==> final(dir)@[k] == crypt_desc_spec(
                old(dir)@[k],
                counter_spec(*nonce, (4 * k) as u64),
                *key,
            ),
{
    let mut k: usize = 0;
    while k < dir.len()
        invariant
            dir@.len() == old(dir)@.len(),
            dir@.len() * 4 <= usize::MAX,
            k <= dir@.len(),
            forall|m: int| k <= m < dir@.len() ==> dir@[m] == old(dir)@[m],
            forall|m: int|
                0 <= m < k ==> dir@[m] == crypt_desc_spec(
                    old(dir)@[m],
                    counter_spec(*nonce, (4 * m) as u64),
                    *key,
                ),
        decreases dir@.len() - k,
    {
        let d = dir[k];
        dir[k] = decrypt_desc(&d, &counter(nonce, 4 * k), key);
        k = k + 1;
    }
}

/// The block serialisation of a plaintext directory: four blocks per
/// descriptor, in order.
pub open spec fn dir_blocks(s: Seq<Descriptor>) -> Seq<Block> {
    Seq::new(4 * s.len(), |i: int| desc_blocks(s[i / 4])[i % 4])
}

/// Encrypts a plaintext directory into a block buffer with counter mode.
pub fn encrypt_dir(src: &[Descriptor], nonce: &Block, key: &Key, dest: &mut [Block])
    requires
        old(dest)@.len() == src@.len() * 4,
        src@.len() * 4 <= usize::MAX,
    ensures
        final(dest)@ == crypt_blocks(dir_blocks(src@), *nonce, *key),
{
    let ghost target = crypt_blocks(dir_blocks(src@), *nonce, *key);
    let mut k: usize = 0;
    while k < src.len()
        invariant
            dest@.len() == src@.len() * 4,
            src@.len() * 4 <= usize::MAX,
            target == crypt_blocks(dir_blocks(src@), *nonce, *key),
            k <= src@.len(),
            forall|m: int| 0 <= m < 4 * k ==> dest@[m] == target[m],
        decreases src@.len() - k,
    {
        let db = desc_to_blocks(&src[k]);
        let mut j: usize = 0;
        while j < 4
            invariant
                j <= 4,
                k < src@.len(),
                dest@.len() == src@.len() * 4,
                src@.len() * 4 <= usize::MAX,
                target == crypt_blocks(dir_blocks(src@), *nonce, *key),
                db@ == desc_blocks(src@[k as int]),
                forall|m: int| 0 <= m < 4 * k + j ==> dest@[m] == target[m],
            decreases 4 - j,
        {
            let i = 4 * k + j;
            dest[i] = xor(db[j], speck128::encrypt(counter(nonce, i), key));
            proof {
                vstd::arithmetic::div_mod::lemma_fundamental_div_mod_converse(
                    i as int,
                    4,
                    k as int,
                    j as int,
                );
                assert(dir_blocks(src@)[i as int] == desc_blocks(src@[k as int])[j as int]);
            }
            j = j + 1;
        }
        k = k + 1;
    }
    proof {
        assert(dest@ =~= target);
    }
}

//----------------------------------------------------------------
// Data

/// The plaintext bytes of a counter-mode encrypted block sequence.
pub open spec fn data_plain(blocks: Seq<Block>, nonce: Block, key: Key) -> Seq<u8> {
    blocks_bytes(crypt_blocks(blocks, nonce, key))
}

/// Plaintext byte `p` comes from block `p / 16` alone.
pub proof fn lemma_data_plain_index(s: Seq<Block>, nonce: Block, key: Key, p: int)
    requires
        0 <= p < 16 * s.len(),
    ensures
        data_plain(s, nonce, key).len() == 16 * s.len(),
        data_plain(s, nonce, key)[p] == block_bytes(
            xor_spec(s[p / 16], keystream(nonce, key, p / 16)),
        )[p % 16],
{
    lemma_blocks_bytes_len(crypt_blocks(s, nonce, key));
    lemma_blocks_bytes_index(crypt_blocks(s, nonce, key), p);
}

/// Decrypts the byte range `[byte_offset, byte_offset + dest.len())` of a
/// counter-mode encrypted block sequence into `dest`. A range that reaches
/// outside the blocks leaves `dest` untouched.
pub fn decrypt_data(blocks: &[Block], nonce: &Block, key: &Key, byte_offset: usize, dest: &mut [u8])
    requires
        byte_offset + old(dest)@.len() <= usize::MAX,
        16 * blocks@.len() <= usize::MAX,
    ensures
        final(dest)@.len() == old(dest)@.len(),
        byte_offset + old(dest)@.len() <= 16 * blocks@.len() ==> forall|j: int|
            0 <= j < old(dest)@.len() ==> final(dest)@[j] == data_plain(blocks@, *nonce, *key)[byte_offset + j],
        byte_offset + old(dest)@.len() > 16 * blocks@.len() ==> final(dest)@ == old(dest)@,
{
    let len = dest.len();
    let total = blocks.len() * 16;
    if byte_offset + len > total {
        return ;
    }
    let mut j: usize = 0;
    while j < len
        invariant
            len == dest@.len(),
            byte_offset + len <= total,
            total == 16 * blocks@.len(),
            total <= usize::MAX,
            j <= len,
            forall|m: int|
                0 <= m < j ==> dest@[m] == data_plain(blocks@, *nonce, *key)[byte_offset + m],
        decreases len - j,
    {
        let p = byte_offset + j;
        let bi = p / 16;
        let off = p % 16;
        proof {
            assert(bi < blocks@.len() && bi * 16 + off == p) by (nonlinear_arith)
                requires
                    bi == p / 16,
                    off == p % 16,
                    p < 16 * blocks@.len(),
            ;
        }
        let ks = speck128::encrypt(counter(nonce, bi), key);
        let pb = xor(blocks[bi], ks);
        let bytes = block_to_bytes(&pb);
        let n = if 16 - off < len - j {
            16 - off
        } else {
            len - j
        };
        let mut t: usize = 0;
        while t < n
            invariant
                len == dest@.len(),
                byte_offset + len <= total,
                total == 16 * blocks@.len(),
                j + n <= len,
                t <= n,
                n >= 1,
                p == byte_offset + j,
                bi == p / 16,
                off == p % 16,
                off + n <= 16,
                bi < blocks@.len(),
                bytes@ == block_bytes(xor_spec(blocks@[bi as int], keystream(*nonce, *key, bi as int))),
                forall|m: int|
                    0 <= m < j + t ==> dest@[m] == data_plain(blocks@, *nonce, *key)[byte_offset
                        + m],
            decreases n - t,
        {
            dest[j + t] = bytes[off + t];
            proof {
                lemma_data_plain_index(blocks@, *nonce, *key, p + t);
                vstd::arithmetic::div_mod::lemma_fundamental_div_mod_converse(
                    p + t,
                    16,
                    bi as int,
                    off + t,
                );
            }
            t = t + 1;
        }
        j = j + n;
    }
}

/// What `encrypt_data` leaves behind when the byte range
/// `[o, o + src.len())` lies inside the blocks and `src` is not empty:
/// the range now decrypts to `src`; the other bytes of the partial first and
/// last blocks are zero under `Pad::Zero` and keep their plaintext under
/// `Pad::Transparent`; every block the range does not touch is unchanged.
pub open spec fn encrypt_data_post(
    oldb: Seq<Block>,
    newb: Seq<Block>,
    nonce: Block,
    key: Key,
    o: int,
    src: Seq<u8>,
    pad: Pad,
) -> bool {
    let len = src.len() as int;
    &&& newb.len() == oldb.len()
    &&& forall|bi: int|
        0 <= bi < oldb.len() && !(o / 16 <= bi <= (o + len - 1) / 16) ==> newb[bi] == oldb[bi]
    &&& forall|p: int| o <= p < o + len ==> data_plain(newb, nonce, key)[p] == src[p - o]
    &&& forall|p: int|
        0 <= p < 16 * oldb.len() && !(o <= p < o + len) && o / 16 <= p / 16 <= (o + len - 1) / 16
            ==> data_plain(newb, nonce, key)[p] == (if pad == Pad::Zero {
            0u8
        } else {
            data_plain(oldb, nonce, key)[p]
        })
    &&& forall|p: int|
        0 <= p < 16 * oldb.len() && !(o / 16 <= p / 16 <= (o + len - 1) / 16) ==> data_plain(
            newb,
            nonce,
            key,
        )[p] == data_plain(oldb, nonce, key)[p]
}

/// Ranged data round-trip: after an in-range `encrypt_data`, the written
/// byte range decrypts back to `src` exactly, and under `Pad::Transparent`
/// every byte outside the range keeps its former plaintext, so disjoint
/// edits leave each other's bytes recoverable.
pub proof fn lemma_data_round_trip(
    oldb: Seq<Block>,
    newb: Seq<Block>,
    nonce: Block,
    key: Key,
    o: int,
    src: Seq<u8>,
    pad: Pad,
)
    requires
        0 <= o,
        src.len() > 0,
        o + src.len() <= 16 * oldb.len(),
        encrypt_data_post(oldb, newb, nonce, key, o, src, pad),
    ensures
        forall|j: int|
            0 <= j < src.len() ==> data_plain(newb, nonce, key)[o + j] == src[j],
        pad == Pad::Transparent ==> forall|p: int|
            0 <= p < 16 * oldb.len() && !(o <= p < o + src.len()) ==> data_plain(newb, nonce, key)[p]
                == data_plain(oldb, nonce, key)[p],
{
    assert forall|j: int| 0 <= j < src.len() implies data_plain(newb, nonce, key)[o + j] == src[j] by {
        assert(o <= o + j < o + src.len());
    }
}

/// Encrypts `src` into the byte range `[byte_offset, byte_offset +
/// src.len())` of the blocks. A range that reaches outside the blocks, or an
/// empty `src`, changes nothing. In a partial first or last block, the bytes
/// not covered by the range are zeroed under `Pad::Zero` and preserved under
/// `Pad::Transparent`.
pub fn encrypt_data(
    blocks: &mut [Block],
    nonce: &Block,
    key: &Key,
    byte_offset: usize,
    src: &[u8],
    pad: Pad,
)
    requires
        byte_offset + src@.len() <= usize::MAX,
        16 * old(blocks)@.len() <= usize::MAX,
    ensures
        final(blocks)@.len() == old(blocks)@.len(),
        byte_offset + src@.len() > 16 * old(blocks)@.len() || src@.len() == 0 ==> final(blocks)@
            == old(blocks)@,
        byte_offset + src@.len() <= 16 * old(blocks)@.len() && src@.len() > 0
            ==> encrypt_data_post(
            old(blocks)@,
            final(blocks)@,
            *nonce,
            *key,
            byte_offset as int,
            src@,
            pad,
        ),
{
    let len = src.len();
    let total = blocks.len() * 16;
    if byte_offset + len > total {
        return ;
    }
    if len == 0 {
        return ;
    }
    let ghost o = byte_offset as int;
    let ghost l = len as int;
    let b0 = byte_offset / 16;
    let b1 = (byte_offset + len - 1) / 16;
    proof {
        assert(b1 < blocks@.len()) by (nonlinear_arith)
            requires
                b1 == (o + l - 1) / 16,
                o + l <= 16 * blocks@.len(),
                l >= 1,
        ;
        assert(b0 <= b1 && 16 * b0 <= o < 16 * b0 + 16 && 16 * b1 <= o + l - 1 < 16 * b1 + 16)
            by (nonlinear_arith)
            requires
                b0 == o / 16,
                b1 == (o + l - 1) / 16,
                l >= 1,
                o >= 0,
        ;
    }
    let mut bi = b0;
    let mut sidx: usize = 0;
    while bi <= b1
        invariant
            blocks@.len() == old(blocks)@.len(),
            16 * blocks@.len() <= usize::MAX,
            len == src@.len(),
            o == byte_offset,
            l == len,
            l >= 1,
            o + l <= total,
            total == 16 * blocks@.len(),
            b0 == o / 16,
            b1 == (o + l - 1) / 16,
            16 * b0 <= o < 16 * b0 + 16,
            16 * b1 <= o + l - 1 < 16 * b1 + 16,
            b0 <= bi <= b1 + 1,
            b1 < blocks@.len(),
            sidx == if bi == b0 {
                0int
            } else if 16 * bi < o + l {
                16 * bi - o
            } else {
                l
            },
            sidx <= len,
            forall|b: int| 0 <= b < blocks@.len() && !(b0 <= b < bi) ==> blocks@[b] == old(blocks)@[b],
            forall|p: int|
                #![trigger data_plain(blocks@, *nonce, *key)[p]]
                o <= p < o + l && p / 16 < bi ==> data_plain(blocks@, *nonce, *key)[p] == src@[p
                    - o],
            forall|p: int|
                #![trigger data_plain(blocks@, *nonce, *key)[p]]
                0 <= p < total && !(o <= p < o + l) && b0 <= p / 16 < bi ==> data_plain(
                    blocks@,
                    *nonce,
                    *key,
                )[p] == (if pad == Pad::Zero {
                    0u8
                } else {
                    data_plain(old(blocks)@, *nonce, *key)[p]
                }),
        decreases b1 + 1 - bi,
    {
        let ghost blocks_pre = blocks@;
        let lo: usize = if bi == b0 {
            byte_offset % 16
        } else {
            0
        };
        let hi: usize = if bi == b1 {
            (byte_offset + len - 1) % 16 + 1
        } else {
            16
        };
        proof {
            assert(16 * bi + lo == o + sidx && lo < hi <= 16 && (bi < b1 ==> 16 * bi + hi == 16 * bi
                + 16) && (bi == b1 ==> 16 * bi + hi == o + l) && (bi == b0 ==> 16 * bi + lo == o) && (
            bi > b0 ==> lo == 0)) by (nonlinear_arith)
                requires
                    b0 == o / 16,
                    b1 == (o + l - 1) / 16,
                    b0 <= bi <= b1,
                    l >= 1,
                    o >= 0,
                    lo == if bi == b0 {
                        o % 16
                    } else {
                        0int
                    },
                    hi == if bi == b1 {
                        (o + l - 1) % 16 + 1
                    } else {
                        16int
                    },
                    sidx == if bi == b0 {
                        0int
                    } else if 16 * bi < o + l {
                        16 * bi - o
                    } else {
                        l
                    },
            ;
        }
        let ks = speck128::encrypt(counter(nonce, bi), key);
        let mut base: [u8; 16] = match pad {
            Pad::Zero => [0u8; 16],
            Pad::Transparent => block_to_bytes(&xor(blocks[bi], ks)),
        };
        let ghost base0 = base@;
        let mut t = lo;
        while t < hi
            invariant
                lo <= t <= hi <= 16,
                sidx + (hi - lo) <= len,
                len == src@.len(),
                base@.len() == 16,
                forall|m: int| 0 <= m < 16 && !(lo <= m < t) ==> base@[m] == base0[m],
                forall|m: int| lo <= m < t ==> base@[m] == src@[sidx + (m - lo)],
            decreases hi - t,
        {
            base[t] = src[sidx + (t - lo)];
            t = t + 1;
        }
        let nb = block_from_bytes(&base[0..16]);
        blocks[bi] = xor(nb, ks);
        sidx = sidx + (hi - lo);
        proof {
            assert(base@.subrange(0, 16) =~= base@);
            lemma_xor_involution(nb, ks);
            assert(ks == keystream(*nonce, *key, bi as int));
            // The new plaintext of block `bi` is exactly `base`.
            assert(xor_spec(blocks@[bi as int], ks) == nb);
            assert(block_bytes(nb) == base@);
            // Establish the per-byte facts for block `bi`.
            assert forall|p: int|
                #![trigger data_plain(blocks@, *nonce, *key)[p]]
                16 * bi <= p < 16 * (bi + 1) && 0 <= p < total implies {
                let v = data_plain(blocks@, *nonce, *key)[p];
                &&& (o <= p < o + l ==> v == src@[p - o])
                &&& (!(o <= p < o + l) ==> v == (if pad == Pad::Zero {
                    0u8
                } else {
                    data_plain(old(blocks)@, *nonce, *key)[p]
                }))
            } by {
                lemma_data_plain_index(blocks@, *nonce, *key, p);
                vstd::arithmetic::div_mod::lemma_fundamental_div_mod_converse(
                    p,
                    16,
                    bi as int,
                    p - 16 * bi,
                );
                let m = p - 16 * bi;
                assert(data_plain(blocks@, *nonce, *key)[p] == base@[m]);
                if o <= p < o + l {
                    assert(lo <= m < hi);
                    assert(base@[m] == src@[sidx - (hi - lo) + (m - lo)]);
                    assert(sidx - (hi - lo) + (m - lo) == p - o);
                } else {
                    assert(!(lo <= m < hi));
                    assert(base@[m] == base0[m]);
                    if pad == Pad::Transparent {
                        lemma_data_plain_index(old(blocks)@, *nonce, *key, p);
                        assert(blocks_pre[bi as int] == old(blocks)@[bi as int]);
                        assert(base0[m] == block_bytes(
                            xor_spec(old(blocks)@[bi as int], keystream(*nonce, *key, bi as int)),
                        )[m]);
                    } else {
                        assert(base0 =~= Seq::new(16, |i: int| 0u8));
                    }
                }
            }
            // Bytes of other blocks are untouched by this iteration.
            assert forall|p: int|
                #![trigger data_plain(blocks@, *nonce, *key)[p]]
                0 <= p < total && p / 16 != bi implies data_plain(
                blocks@,
                *nonce,
                *key,
            )[p] == data_plain(blocks_pre, *nonce, *key)[p] by {
                lemma_data_plain_index(blocks@, *nonce, *key, p);
                lemma_data_plain_index(blocks_pre, *nonce, *key, p);
            }
        }
        bi = bi + 1;
    }
    proof {
        assert forall|p: int|
            0 <= p < total && !(o / 16 <= p / 16 <= (o + l - 1) / 16) implies data_plain(
            blocks@,
            *nonce,
            *key,
        )[p] == data_plain(old(blocks)@, *nonce, *key)[p] by {
            lemma_data_plain_index(blocks@, *nonce, *key, p);
            lemma_data_plain_index(old(blocks)@, *nonce, *key, p);
            assert(0 <= p / 16 < blocks@.len()) by (nonlinear_arith)
                requires
                    0 <= p < total,
                    total == 16 * blocks@.len(),
            ;
        }
    }
}

/// Writes the raw keystream to the blocks: the ciphertext of an all-zero
/// plaintext.
pub fn encrypt_zero(blocks: &mut [Block], nonce: &Block, key: &Key)
    ensures
        final(blocks)@.len() == old(blocks)@.len(),
        forall|i: int|
            0 <= i < old(blocks)@.len() ==> final(blocks)@[i] == keystream(*nonce, *key, i),
        forall|p: int|
            0 <= p < 16 * old(blocks)@.len() ==> data_plain(final(blocks)@, *nonce, *key)[p] == 0,
{
    let mut i: usize = 0;
    while i < blocks.len()
        invariant
            blocks@.len() == old(blocks)@.len(),
            i <= blocks@.len(),
            forall|j: int| 0 <= j < i ==> blocks@[j] == keystream(*nonce, *key, j),
        decreases blocks@.len() - i,
    {
        blocks[i] = speck128::encrypt(counter(nonce, i), key);
        i = i + 1;
    }
    proof {
        lemma_zero_block_bytes();
        assert forall|p: int|
            0 <= p < 16 * blocks@.len() implies data_plain(blocks@, *nonce, *key)[p] == 0 by {
            lemma_data_plain_index(blocks@, *nonce, *key, p);
            assert(0 <= p / 16 < blocks@.len()) by (nonlinear_arith)
                requires
                    0 <= p < 16 * blocks@.len(),
            ;
            lemma_xor_self(keystream(*nonce, *key, p / 16));
            assert(block_bytes([0u64, 0u64])[p % 16] == 0);
        }
    }
}

/// Decrypts each block with the old keystream and re-encrypts it with the
/// new one, in place: the plaintext never appears, yet the new ciphertext
/// decrypts under the new nonce and key to the same bytes as the old one did
/// under the old.
pub fn reencrypt_data(
    blocks: &mut [Block],
    old_nonce: &Block,
    new_nonce: &Block,
    old_key: &Key,
    new_key: &Key,
)
    ensures
        final(blocks)@.len() == old(blocks)@.len(),
        forall|i: int|
            0 <= i < old(blocks)@.len() ==> final(blocks)@[i] == xor_spec(
                xor_spec(old(blocks)@[i], keystream(*old_nonce, *old_key, i)),
                keystream(*new_nonce, *new_key, i),
            ),
        data_plain(final(blocks)@, *new_nonce, *new_key) == data_plain(
            old(blocks)@,
            *old_nonce,
            *old_key,
        ),
{
    let mut i: usize = 0;
    while i < blocks.len()
        invariant
            blocks@.len() == old(blocks)@.len(),
            i <= blocks@.len(),
            forall|j: int| i <= j < blocks@.len() ==> blocks@[j] == old(blocks)@[j],
            forall|j: int|
                0 <= j < i ==> blocks@[j] == xor_spec(
                    xor_spec(old(blocks)@[j], keystream(*old_nonce, *old_key, j)),
                    keystream(*new_nonce, *new_key, j),
                ),
        decreases blocks@.len() - i,
    {
        let block = xor(blocks[i], speck128::encrypt(counter(old_nonce, i), old_key));
        blocks[i] = xor(block, speck128::encrypt(counter(new_nonce, i), new_key));
        i = i + 1;
    }
    proof {
        assert forall|j: int|
            0 <= j < blocks@.len() implies crypt_blocks(blocks@, *new_nonce, *new_key)[j]
            == crypt_blocks(old(blocks)@, *old_nonce, *old_key)[j] by {
            lemma_xor_involution(
                xor_spec(old(blocks)@[j], keystream(*old_nonce, *old_key, j)),
                keystream(*new_nonce, *new_key, j),
            );
        }
        assert(crypt_blocks(blocks@, *new_nonce, *new_key) =~= crypt_blocks(
            old(blocks)@,
            *old_nonce,
            *old_key,
        ));
    }
}

} // verus!
