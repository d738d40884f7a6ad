//! Reading a PAK file from memory with on-the-fly decryption: the directory
//! stays encrypted, and only the descriptors a lookup visits are decrypted.

use vstd::prelude::*;
use crate::{spec_bytes2blocks, bytes2blocks, Block, Descriptor, Header, InfoHeader, Key, Section};
use crate::codec::{blocks_desc, desc_from_blocks, header_from_blocks};
use crate::crypt::{self, counter_spec, crypt_desc_spec, data_plain, decrypt_header_spec};
use crate::directory::{self, find_enc_in, next_sib};

verus! {

/// The raw (still encrypted) descriptors of the directory region: descriptor
/// `k` is read from the four blocks at `offset + 4k`.
pub open spec fn read_directory_spec(blocks: Seq<Block>, sec: Section) -> Seq<Descriptor> {
    Seq::new(
        sec.size as nat,
        |k: int| blocks_desc(blocks.subrange(sec.offset + 4 * k, sec.offset + 4 * k + 4)),
    )
}

/// The info header stored at the head of a block buffer.
pub open spec fn stored_info(blocks: Seq<Block>, key: Key) -> crate::InfoHeader {
    decrypt_header_spec(crate::codec::blocks_header(blocks.subrange(0, 5)), key).info
}

/// Reads a PAK file from memory with on-the-fly decryption.
pub struct MemoryReader<'a> {
    blocks: &'a [Block],
    key: Key,
    directory: Vec<Descriptor>,
    dirnonce: Block,
}

impl<'a> MemoryReader<'a> {
    /// The archive's blocks.
    pub closed spec fn blocks(self) -> Seq<Block> {
        self.blocks@
    }

    /// The key the reader decrypts with.
    pub closed spec fn key(self) -> Key {
        self.key
    }

    /// The encrypted descriptors of the directory.
    pub closed spec fn directory(self) -> Seq<Descriptor> {
        self.directory@
    }

    /// The directory's base nonce.
    pub closed spec fn dirnonce(self) -> Block {
        self.dirnonce
    }

    /// The reader's sizes stay within the machine's address arithmetic.
    pub closed spec fn wf(self) -> bool {
        &&& self.directory@.len() * 4 <= usize::MAX
        &&& self.blocks@.len() * 16 <= usize::MAX
    }

    /// Constructs a new `MemoryReader` from the blocks and the key.
    ///
    /// On too-small input, a bad version, or a directory section that reaches
    /// outside the blocks, the reader holds an empty directory and behaves as
    /// if the archive held no files or directories.
    pub fn from_blocks(blocks: &'a [Block], key: &Key) -> (r: MemoryReader<'a>)
        requires
            blocks@.len() * 16 <= usize::MAX,
        ensures
            r.wf(),
            r.blocks() == blocks@,
            r.key() == *key,
            blocks@.len() >= 5 ==> r.dirnonce() == stored_info(blocks@, *key).directory.nonce,
            ({
                let info = stored_info(blocks@, *key);
                if blocks@.len() >= 5 && info.version == InfoHeader::VERSION && info.directory.offset
                    + info.directory.size * 4 <= blocks@.len() {
                    r.directory() == read_directory_spec(blocks@, info.directory)
                } else {
                    r.directory().len() == 0
                }
            }),
    {
        if blocks.len() < Header::BLOCKS_LEN {
            return MemoryReader { blocks, key: *key, directory: Vec::new(), dirnonce: [0, 0] };
        }
        let hb: [Block; 5] = [blocks[0], blocks[1], blocks[2], blocks[3], blocks[4]];
        proof {
            assert(hb@ =~= blocks@.subrange(0, 5));
        }
        let header = header_from_blocks(&hb);
        let info = crypt::decrypt_header(&header, key);
        if info.version != InfoHeader::VERSION {
            return MemoryReader {
                blocks,
                key: *key,
                directory: Vec::new(),
                dirnonce: info.directory.nonce,
            };
        }
        let off = info.directory.offset as usize;
        let size = info.directory.size as usize;
        if (off as u64) + (size as u64) * 4 > blocks.len() as u64 {
            return MemoryReader {
                blocks,
                key: *key,
                directory: Vec::new(),
                dirnonce: info.directory.nonce,
            };
        }
        let mut directory: Vec<Descriptor> = Vec::new();
        let mut k: usize = 0;
        while k < size
            invariant
                k <= size,
                off == info.directory.offset,
                size == info.directory.size,
                off + size * 4 <= blocks@.len(),
                blocks@.len() <= usize::MAX,
                directory@.len() == k,
                forall|m: int|
                    0 <= m < k ==> directory@[m] == read_directory_spec(blocks@, info.directory)[m],
            decreases size - k,
        {
            let base = off + 4 * k;
            let eb: [Block; 4] = [blocks[base], blocks[base + 1], blocks[base + 2], blocks[base
                + 3]];
            proof {
                assert(eb@ =~= blocks@.subrange(base as int, base as int + 4));
            }
            directory.push(desc_from_blocks(&eb));
            k = k + 1;
        }
        proof {
            assert(directory@ =~= read_directory_spec(blocks@, info.directory));
        }
        MemoryReader { blocks, key: *key, directory, dirnonce: info.directory.nonce }
    }

    /// Does this reader hold no files or directories?
    pub fn is_empty(&self) -> (r: bool)
        ensures
            r == (self.directory().len() == 0),
    {
        self.directory.is_empty()
    }

    /// Finds a descriptor by its path, decrypting only the descriptors the
    /// search visits.
    pub fn find(&self, path: &[u8]) -> (r: Option<Descriptor>)
        requires
            self.wf(),
        ensures
            path@.len() == 0 ==> r is None,
            path@.len() > 0 ==> r == find_enc_in(
                self.directory(),
                0,
                self.directory().len() as int,
                path@,
                self.dirnonce(),
                self.key(),
            ),
    {
        directory::find_encrypted(self.directory.as_slice(), path, &self.dirnonce, &self.key)
    }

    /// Finds a descriptor by its path starting from the given directory
    /// descriptor, whose section must lie within the directory.
    pub fn find_sub(&self, root: &Descriptor, path: &[u8]) -> (r: Option<Descriptor>)
        requires
            self.wf(),
            root.section.offset + root.section.size <= self.directory().len(),
        ensures
            path@.len() == 0 ==> r is None,
            path@.len() > 0 ==> r == find_enc_in(
                self.directory().subrange(
                    root.section.offset as int,
                    root.section.offset + root.section.size,
                ),
                0,
                root.section.size as int,
                path@,
                counter_spec(self.dirnonce(), (root.section.offset * 4) as u64),
                self.key(),
            ),
    {
        let off = root.section.offset as usize;
        let size = root.section.size as usize;
        let subdir = &self.directory.as_slice()[off..off + size];
        let nonce = crypt::counter(&self.dirnonce, off * 4);
        directory::find_encrypted(subdir, path, &nonce, &self.key)
    }

    /// Is this a valid file descriptor: typed as a file, stored past the
    /// header, inside the archive, and large enough for its content?
    pub fn is_valid_file(&self, desc: &Descriptor) -> (r: bool)
        ensures
            r == (desc.content_type != 0 && desc.section.offset >= Header::BLOCKS_LEN
                && desc.section.offset + desc.section.size <= self.blocks().len()
                && spec_bytes2blocks(desc.content_size) <= desc.section.size),
    {
        desc.content_type != 0 && desc.section.offset >= Header::BLOCKS_LEN as u32
            && (desc.section.offset as u64) + (desc.section.size as u64) <= self.blocks.len() as u64
            && bytes2blocks(desc.content_size) <= desc.section.size
    }

    /// Is this a valid directory descriptor: typed as a directory, counting
    /// as many descendants as its section addresses, inside the directory?
    pub fn is_valid_dir(&self, desc: &Descriptor) -> (r: bool)
        ensures
            r == (desc.content_type == 0 && desc.section.size == desc.content_size
                && desc.section.offset + desc.section.size <= self.directory().len()),
    {
        desc.content_type == 0 && desc.section.size == desc.content_size && (desc.section.offset
            as u64) + (desc.section.size as u64) <= self.directory.len() as u64
    }

    /// Decrypts the contents of the given file descriptor.
    ///
    /// A directory descriptor yields an empty vector; a descriptor whose
    /// section reaches outside the archive, or whose content does not fit its
    /// section, yields zeroes.
    pub fn read_data(&self, desc: &Descriptor) -> (r: Vec<u8>)
        requires
            self.wf(),
        ensures
            desc.content_type == 0 ==> r@.len() == 0,
            desc.content_type != 0 ==> r@.len() == desc.content_size,
            desc.content_type != 0 && desc.section.offset + desc.section.size <= self.blocks().len()
                && desc.content_size <= 16 * desc.section.size ==> forall|j: int|
                0 <= j < desc.content_size ==> r@[j] == data_plain(
                    self.blocks().subrange(
                        desc.section.offset as int,
                        desc.section.offset + desc.section.size,
                    ),
                    desc.section.nonce,
                    self.key(),
                )[j],
            desc.content_type != 0 && !(desc.section.offset + desc.section.size
                <= self.blocks().len() && desc.content_size <= 16 * desc.section.size) ==> forall|
                j: int,
            |
                0 <= j < desc.content_size ==> r@[j] == 0,
    {
        if !desc.is_file() {
            return Vec::new();
        }
        let mut bytes: Vec<u8> = Vec::new();
        let mut t: usize = 0;
        while t < desc.content_size as usize
            invariant
                t <= desc.content_size,
                bytes@.len() == t,
                forall|j: int| 0 <= j < t ==> bytes@[j] == 0,
            decreases desc.content_size - t,
        {
            bytes.push(0);
            t = t + 1;
        }
        if (desc.section.offset as u64) + (desc.section.size as u64) <= self.blocks.len() as u64 {
            let off = desc.section.offset as usize;
            let size = desc.section.size as usize;
            let sub = &self.blocks[off..off + size];
            crypt::decrypt_data(sub, &desc.section.nonce, &self.key, 0, bytes.as_mut_slice());
        }
        bytes
    }

    /// Decrypts part of the given file descriptor's contents into `dest`,
    /// starting at `byte_offset` within the file.
    ///
    /// A directory descriptor, a section outside the archive, or a byte range
    /// outside the section leaves `dest` untouched.
    pub fn read_into(&self, desc: &Descriptor, byte_offset: usize, dest: &mut [u8])
        requires
            self.wf(),
            byte_offset + old(dest)@.len() <= usize::MAX,
        ensures
            final(dest)@.len() == old(dest)@.len(),
            desc.content_type != 0 && desc.section.offset + desc.section.size <= self.blocks().len()
                && byte_offset + old(dest)@.len() <= 16 * desc.section.size ==> forall|j: int|
                0 <= j < old(dest)@.len() ==> final(dest)@[j] == data_plain(
                    self.blocks().subrange(
                        desc.section.offset as int,
                        desc.section.offset + desc.section.size,
                    ),
                    desc.section.nonce,
                    self.key(),
                )[byte_offset + j],
            desc.content_type == 0 || !(desc.section.offset + desc.section.size
                <= self.blocks().len()) || byte_offset + old(dest)@.len() > 16 * desc.section.size
                ==> final(dest)@ == old(dest)@,
    {
        if !desc.is_file() {
            return ;
        }
        if (desc.section.offset as u64) + (desc.section.size as u64) <= self.blocks.len() as u64 {
            let off = desc.section.offset as usize;
            let size = desc.section.size as usize;
            let sub = &self.blocks[off..off + size];
            crypt::decrypt_data(sub, &desc.section.nonce, &self.key, byte_offset, dest);
        }
    }

    /// Iterates over the sibling descriptors of the given directory
    /// descriptor, decrypting one per step.
    pub fn iter(&self, desc: &Descriptor) -> (r: MemoryReadIter<'_>)
        requires
            desc.section.offset + desc.section.size <= u32::MAX,
        ensures
            r.reader() == *self,
            r.start() == desc.section.offset,
            r.end() == desc.section.offset + desc.section.size,
    {
        MemoryReadIter {
            memory_reader: self,
            start: desc.section.offset,
            end: desc.section.offset + desc.section.size,
        }
    }
}

/// Memory directory iterator: yields one decrypted sibling per step.
#[derive(Clone)]
pub struct MemoryReadIter<'a> {
    memory_reader: &'a MemoryReader<'a>,
    start: u32,
    end: u32,
}

impl<'a> MemoryReadIter<'a> {
    /// The reader this iterator walks.
    pub closed spec fn reader(self) -> MemoryReader<'a> {
        *self.memory_reader
    }

    /// The index of the next descriptor to decrypt.
    pub closed spec fn start(self) -> u32 {
        self.start
    }

    /// The index just past the last sibling.
    pub closed spec fn end(self) -> u32 {
        self.end
    }

    /// Decrypts and returns the next sibling descriptor, skipping its
    /// subtree, or returns `None` when the siblings are exhausted or the
    /// iterator stands outside the directory.
    pub fn next(&mut self) -> (r: Option<Descriptor>)
        requires
            old(self).reader().wf(),
        ensures
            final(self).reader() == old(self).reader(),
            final(self).end() == old(self).end(),
            old(self).start() >= old(self).end() || old(self).start()
                >= old(self).reader().directory().len() ==> r is None && final(self).start() == old(
                self,
            ).start(),
            old(self).start() < old(self).end() && old(self).start() < old(
                self,
            ).reader().directory().len() ==> ({
                let d = crypt_desc_spec(
                    old(self).reader().directory()[old(self).start() as int],
                    counter_spec(old(self).reader().dirnonce(), (old(self).start() * 4) as u64),
                    old(self).reader().key(),
                );
                r == Some(d) && final(self).start() == next_sib(
                    d,
                    old(self).start() as int,
                    old(self).end() as int,
                )
            }),
    {
        if self.start >= self.end {
            return None;
        }
        if self.start as usize >= self.memory_reader.directory.len() {
            return None;
        }
        let i = self.start as usize;
        let nonce = crypt::counter(&self.memory_reader.dirnonce, i * 4);
        let desc = crypt::decrypt_desc(&self.memory_reader.directory[i], &nonce, &self.memory_reader.key);
        let end = self.end as usize;
        let next = directory::next_sibling(&desc, i, end);
        proof {
            assert(next <= end && end <= u32::MAX);
        }
        self.start = next as u32;
        Some(desc)
    }
}

} // verus!
