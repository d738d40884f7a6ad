//! An encrypted archive ("PAK") engine: a block-oriented file container whose
//! on-disk form is encrypted with a 128-bit block cipher, whose directory is a
//! flattened tree of fixed-size descriptors, and whose reader can traverse and
//! locate entries while decrypting only the descriptors it visits.

use vstd::prelude::*;

pub mod speck128;
pub mod codec;
pub mod crypt;
pub mod directory;
pub mod memory_reader;
pub mod memory_editor;

pub use self::memory_editor::{MemoryEditFile, MemoryEditor};
pub use self::memory_reader::{MemoryReadIter, MemoryReader};

verus! {

/// A 16-byte unit: the quantum of the cipher and of section addressing.
pub type Block = [u64; 2];

/// A 128-bit cipher key, same shape as a block.
pub type Key = [u64; 2];

/// Size of a block in bytes.
pub const BLOCK_SIZE: usize = 16;

/// Size of a key in bytes.
pub const KEY_SIZE: usize = 16;

/// Number of blocks a file of `byte_size` bytes occupies, rounded up to whole
/// blocks; zero bytes need zero blocks.
pub open spec fn spec_bytes2blocks(byte_size: u32) -> u32 {
    if byte_size == 0 {
        0u32
    } else {
        (((byte_size - 1) / 16) + 1) as u32
    }
}

/// Number of blocks needed to hold `byte_size` bytes.
pub fn bytes2blocks(byte_size: u32) -> (r: u32)
    ensures
        r == spec_bytes2blocks(byte_size),
        byte_size <= r as int * 16,
{
    if byte_size == 0 {
        0
    } else {
        (byte_size - 1) / 16 + 1
    }
}

/// A contiguous span inside the archive, addressed in blocks.
#[derive(Copy, Clone, Debug, Eq, PartialEq, Hash)]
pub struct Section {
    /// Offset in blocks to the start of the section.
    pub offset: u32,
    /// Length in blocks of the section (in the header's directory section it
    /// counts descriptors instead).
    pub size: u32,
    /// Counter-mode nonce used for this section.
    pub nonce: Block,
}

/// The all-zero section.
pub open spec fn spec_section_default() -> Section {
    Section { offset: 0u32, size: 0u32, nonce: [0u64, 0u64] }
}

impl Default for Section {
    /// Returns the all-zero section.
    fn default() -> (r: Section)
        ensures
            r == spec_section_default(),
    {
        Section { offset: 0, size: 0, nonce: [0, 0] }
    }
}

/// The PAK file info header.
#[derive(Copy, Clone, Debug, Eq, PartialEq, Hash)]
pub struct InfoHeader {
    /// Version value, must equal `InfoHeader::VERSION`.
    pub version: u32,
    /// Padding, zero on write and ignored on read.
    pub unused: [u32; 1],
    /// Where the directory lives. Its `size` counts descriptors, not blocks;
    /// its `offset` is a block index; its `nonce` seeds the per-descriptor
    /// counter.
    pub directory: Section,
}

impl InfoHeader {
    /// Current expected version number.
    pub const VERSION: u32 = 0;

    /// Number of 16-byte blocks an info header occupies.
    pub const BLOCKS_LEN: usize = 2;

    /// How many blocks the whole archive holds, assuming the directory is the
    /// very last thing in it: the directory's offset plus four blocks per
    /// descriptor, and never less than the header itself. Returns nothing for
    /// a version this engine does not read, or for an archive too large to
    /// address.
    pub fn total_blocks(&self) -> (r: Option<usize>)
        ensures
            self.version != InfoHeader::VERSION ==> r is None,
            self.version == InfoHeader::VERSION && self.directory.offset + self.directory.size * 4
                <= usize::MAX ==> r == Some(
                (if self.directory.offset + self.directory.size * 4 >= 5 {
                    (self.directory.offset + self.directory.size * 4) as usize
                } else {
                    5usize
                }),
            ),
            self.version == InfoHeader::VERSION && self.directory.offset + self.directory.size * 4
                > usize::MAX ==> r is None,
    {
        if self.version != InfoHeader::VERSION {
            return None;
        }
        let total = (self.directory.offset as u64) + (self.directory.size as u64) * 4;
        if total > usize::MAX as u64 {
            return None;
        }
        if total < 5 {
            Some(5)
        } else {
            Some(total as usize)
        }
    }
}

/// The PAK file header.
#[derive(Copy, Clone, Debug, Eq, PartialEq, Hash)]
pub struct Header {
    /// Reserved 256-bit HMAC field; the core leaves it as opaque bytes.
    pub hmac: [u32; 8],
    /// CBC initialisation vector for the info header.
    pub iv: Block,
    /// Version information and directory section.
    pub info: InfoHeader,
}

impl Header {
    /// Number of 16-byte blocks a header occupies.
    pub const BLOCKS_LEN: usize = 5;
}

/// A 64-byte tree node: a directory when `content_type` is zero (then
/// `content_size` counts all descendants), otherwise a file (then
/// `content_size` is the payload length in bytes).
#[derive(Copy, Clone, Debug, Eq, PartialEq, Hash)]
pub struct Descriptor {
    pub content_type: u32,
    pub content_size: u32,
    pub section: Section,
    pub name_buf: [u8; 32],
}

/// Builds a 32-byte array out of the first 32 entries of a byte sequence.
pub open spec fn array32(s: Seq<u8>) -> [u8; 32] {
    [
        s[0],
        s[1],
        s[2],
        s[3],
        s[4],
        s[5],
        s[6],
        s[7],
        s[8],
        s[9],
        s[10],
        s[11],
        s[12],
        s[13],
        s[14],
        s[15],
        s[16],
        s[17],
        s[18],
        s[19],
        s[20],
        s[21],
        s[22],
        s[23],
        s[24],
        s[25],
        s[26],
        s[27],
        s[28],
        s[29],
        s[30],
        s[31],
    ]
}

/// `array32` reproduces exactly the sequence it was built from.
pub proof fn lemma_array32_view(s: Seq<u8>)
    requires
        s.len() == 32,
    ensures
        array32(s)@ == s,
{
    assert(array32(s)@ =~= s);
}

/// The all-zero descriptor: a directory with an empty name whose name buffer
/// holds only zero bytes.
pub open spec fn spec_desc_default() -> Descriptor {
    Descriptor {
        content_type: 0u32,
        content_size: 0u32,
        section: spec_section_default(),
        name_buf: array32(Seq::new(32, |i: int| 0u8)),
    }
}

/// The length of the name encoded in a descriptor's name buffer: the last
/// byte holds `32 - length`, and the length is clamped to 31.
pub open spec fn spec_name_len(d: Descriptor) -> int {
    let tag = d.name_buf[31] as int;
    if 1 <= tag && tag <= 32 {
        if 32 - tag > 31 {
            31
        } else {
            32 - tag
        }
    } else {
        31
    }
}

/// The name encoded in a descriptor's name buffer.
pub open spec fn spec_name(d: Descriptor) -> Seq<u8> {
    d.name_buf@.take(spec_name_len(d))
}

/// The name buffer that `set_name` produces over a previous buffer `prev`:
/// the first `min(name.len(), 31)` bytes hold the name, the last byte holds
/// the length complement, and the bytes in between keep their former value.
pub open spec fn spec_set_name_buf(prev: Seq<u8>, name: Seq<u8>) -> Seq<u8> {
    let len = if name.len() > 31 {
        31int
    } else {
        name.len() as int
    };
    Seq::new(
        32,
        |i: int|
            if i < len {
                name[i]
            } else if i == 31 {
                (32 - len) as u8
            } else {
                prev[i]
            },
    )
}

impl Default for Descriptor {
    /// Returns the all-zero descriptor.
    fn default() -> (r: Descriptor)
        ensures
            r == spec_desc_default(),
    {
        let r = Descriptor {
            content_type: 0,
            content_size: 0,
            section: Section { offset: 0, size: 0, nonce: [0, 0] },
            name_buf: [0; 32],
        };
        proof {
            lemma_array32_view(Seq::new(32, |i: int| 0u8));
            assert(r.name_buf@ =~= Seq::new(32, |i: int| 0u8));
            assert(r.name_buf =~= spec_desc_default().name_buf);
        }
        r
    }
}

impl Descriptor {
    /// Number of 16-byte blocks a descriptor occupies.
    pub const BLOCKS_LEN: usize = 4;

    /// Creates a new descriptor with the given name, content type and size.
    ///
    /// A zero `content_type` makes a directory descriptor whose
    /// `content_size` counts the descendants that follow it; a non-zero one
    /// makes a file descriptor whose `content_size` is its byte length.
    pub fn new(name: &[u8], content_type: u32, content_size: u32) -> (r: Descriptor)
        ensures
            r.content_type == content_type,
            r.content_size == content_size,
            r.section == spec_section_default(),
            r.name_buf@ == spec_set_name_buf(spec_desc_default().name_buf@, name@),
            spec_name(r) == name@.take(if name@.len() > 31 { 31int } else { name@.len() as int }),
    {
        let mut desc = Descriptor {
            content_type,
            content_size,
            ..Descriptor::default()
        };
        desc.set_name(name);
        desc
    }

    /// Creates an empty file descriptor.
    pub fn file(name: &[u8]) -> (r: Descriptor)
        ensures
            r.content_type == 1,
            r.content_size == 0,
            r.section == spec_section_default(),
            r.name_buf@ == spec_set_name_buf(spec_desc_default().name_buf@, name@),
            spec_name(r) == name@.take(if name@.len() > 31 { 31int } else { name@.len() as int }),
    {
        Descriptor::new(name, 1, 0)
    }

    /// Creates a directory descriptor with the given descendant count.
    pub fn dir(name: &[u8], len: u32) -> (r: Descriptor)
        ensures
            r.content_type == 0,
            r.content_size == len,
            r.section == spec_section_default(),
            r.name_buf@ == spec_set_name_buf(spec_desc_default().name_buf@, name@),
            spec_name(r) == name@.take(if name@.len() > 31 { 31int } else { name@.len() as int }),
    {
        Descriptor::new(name, 0, len)
    }

    /// Gets the descriptor's name encoded in the name buffer.
    pub fn name(&self) -> (r: &[u8])
        ensures
            r@ == spec_name(*self),
    {
        let tag = self.name_buf[31] as usize;
        let len: usize = if 1 <= tag && tag <= 32 {
            if 32 - tag > 31 {
                31
            } else {
                32 - tag
            }
        } else {
            31
        };
        proof {
            assert(self.name_buf@.subrange(0, spec_name_len(*self)) =~= spec_name(*self));
        }
        &self.name_buf[0..len]
    }

    /// Sets the descriptor's name by encoding it in the name buffer.
    ///
    /// Names longer than 31 bytes are cut off.
    pub fn set_name(&mut self, name: &[u8])
        ensures
            final(self).content_type == old(self).content_type,
            final(self).content_size == old(self).content_size,
            final(self).section == old(self).section,
            final(self).name_buf@ == spec_set_name_buf(old(self).name_buf@, name@),
            spec_name(*final(self)) == name@.take(
                if name@.len() > 31 {
                    31int
                } else {
                    name@.len() as int
                },
            ),
    {
        let len: usize = if name.len() > 31 {
            31
        } else {
            name.len()
        };
        self.name_buf[31] = (32 - len) as u8;
        let mut i: usize = 0;
        while i < len
            invariant
                len == if name@.len() > 31 { 31int } else { name@.len() as int },
                i <= len,
                self.content_type == old(self).content_type,
                self.content_size == old(self).content_size,
                self.section == old(self).section,
                self.name_buf@.len() == 32,
                forall|j: int| 0 <= j < i ==> self.name_buf@[j] == name@[j],
                forall|j: int| i <= j < 31 ==> self.name_buf@[j] == old(self).name_buf@[j],
                self.name_buf@[31] == (32 - len) as u8,
            decreases len - i,
        {
            self.name_buf[i] = name[i];
            i = i + 1;
        }
        proof {
            assert(self.name_buf@ =~= spec_set_name_buf(old(self).name_buf@, name@));
            assert(spec_name(*self) =~= name@.take(len as int));
        }
    }

    /// Is this a directory descriptor?
    pub fn is_dir(&self) -> (r: bool)
        ensures
            r == (self.content_type == 0),
    {
        self.content_type == 0
    }

    /// Is this a file descriptor?
    pub fn is_file(&self) -> (r: bool)
        ensures
            r == (self.content_type != 0),
    {
        self.content_type != 0
    }
}

} // verus!
