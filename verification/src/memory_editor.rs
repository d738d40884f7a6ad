//! Building and editing a PAK file in memory: descriptors live decrypted in
//! a flat vector, payload blocks are bump-allocated at the tail and encrypted
//! in place, and `finish` seals the header and the encrypted directory.

use vstd::prelude::*;
use crate::{
    bytes2blocks, spec_bytes2blocks, spec_section_default, Block, Descriptor, Header, InfoHeader,
    Key, Section,
};
use crate::crypt::{
    self, crypt_blocks, data_plain, dir_blocks, dir_in_range, decrypt_dir_spec, encrypt_data_post,
    encrypt_header_spec, keystream, Pad,
};
use crate::directory::{
    self, create_spec, remove_finds, remove_spec, spec_create_ok, update_addr_spec,
};

verus! {

/// Copies `len` blocks starting at `off` out of the archive.
fn copy_section(blocks: &Vec<Block>, off: usize, len: usize) -> (r: Vec<Block>)
    requires
        off + len <= blocks@.len(),
    ensures
        r@ == blocks@.subrange(off as int, off + len),
        r@.len() == len,
        forall|m: int| 0 <= m < len ==> r@[m] == blocks@[off + m],
{
    let n = blocks.len();
    let mut r: Vec<Block> = Vec::new();
    let mut t: usize = 0;
    while t < len
        invariant
            off + len <= blocks@.len(),
            n == blocks@.len(),
            t <= len,
            r@.len() == t,
            forall|m: int| 0 <= m < t ==> r@[m] == blocks@[off + m],
        decreases len - t,
    {
        r.push(blocks[off + t]);
        t = t + 1;
    }
    proof {
        assert(r@ =~= blocks@.subrange(off as int, off + len));
    }
    r
}

/// Writes a run of blocks back into the archive at `off`.
fn write_section(blocks: &mut Vec<Block>, off: usize, sub: &Vec<Block>)
    requires
        off + sub@.len() <= old(blocks)@.len(),
    ensures
        final(blocks)@.len() == old(blocks)@.len(),
        final(blocks)@.subrange(off as int, off + sub@.len()) == sub@,
        forall|m: int| 0 <= m < sub@.len() ==> final(blocks)@[off + m] == sub@[m],
        forall|m: int|
            0 <= m < old(blocks)@.len() && !(off <= m < off + sub@.len()) ==> final(blocks)@[m]
                == old(blocks)@[m],
{
    let n = blocks.len();
    let mut t: usize = 0;
    while t < sub.len()
        invariant
            off + sub@.len() <= blocks@.len(),
            n == blocks@.len(),
            blocks@.len() == old(blocks)@.len(),
            t <= sub@.len(),
            forall|m: int| 0 <= m < t ==> blocks@[off + m] == sub@[m],
            forall|m: int|
                0 <= m < blocks@.len() && !(off <= m < off + t) ==> blocks@[m] == old(blocks)@[m],
        decreases sub@.len() - t,
    {
        blocks[off + t] = sub[t];
        t = t + 1;
    }
    proof {
        assert(blocks@.subrange(off as int, off + sub@.len()) =~= sub@);
    }
}

/// Appends `n` zero blocks.
fn push_zero_blocks(blocks: &mut Vec<Block>, n: usize)
    requires
        old(blocks)@.len() + n <= usize::MAX,
    ensures
        final(blocks)@.len() == old(blocks)@.len() + n,
        final(blocks)@.subrange(0, old(blocks)@.len() as int) == old(blocks)@,
        forall|m: int|
            old(blocks)@.len() <= m < final(blocks)@.len() ==> final(blocks)@[m] == [0u64, 0u64],
{
    let mut t: usize = 0;
    while t < n
        invariant
            blocks@.len() == old(blocks)@.len() + t,
            old(blocks)@.len() + n <= usize::MAX,
            t <= n,
            blocks@.subrange(0, old(blocks)@.len() as int) == old(blocks)@,
            forall|m: int| old(blocks)@.len() <= m < blocks@.len() ==> blocks@[m] == [0u64, 0u64],
        decreases n - t,
    {
        blocks.push([0, 0]);
        proof {
            assert(blocks@.subrange(0, old(blocks)@.len() as int) =~= old(blocks)@);
        }
        t = t + 1;
    }
}

/// PAK editor with memory buffers.
#[derive(Clone, Debug)]
pub struct MemoryEditor {
    blocks: Vec<Block>,
    dir: Vec<Descriptor>,
}

/// What one pass of `gc` builds, walking the directory from `j` with the
/// kept blocks accumulated in `acc`: a file descriptor whose section lies
/// inside the archive has its blocks appended and its offset rebased; one
/// whose section reaches outside loses it entirely; directory descriptors
/// are left alone.
pub open spec fn gc_spec(
    blocks: Seq<Block>,
    dir: Seq<Descriptor>,
    j: int,
    acc: Seq<Block>,
) -> (Seq<Block>, Seq<Descriptor>)
    decreases dir.len() - j,
{
    if j < 0 || j >= dir.len() {
        (acc, dir)
    } else {
        let d = dir[j];
        if d.content_type != 0 {
            if d.section.offset + d.section.size <= blocks.len() {
                let d2 = Descriptor {
                    section: Section {
                        offset: acc.len() as u32,
                        size: d.section.size,
                        nonce: d.section.nonce,
                    },
                    ..d
                };
                gc_spec(
                    blocks,
                    dir.update(j, d2),
                    j + 1,
                    acc + blocks.subrange(
                        d.section.offset as int,
                        d.section.offset + d.section.size,
                    ),
                )
            } else {
                gc_spec(
                    blocks,
                    dir.update(j, Descriptor { section: spec_section_default(), ..d }),
                    j + 1,
                    acc,
                )
            }
        } else {
            gc_spec(blocks, dir, j + 1, acc)
        }
    }
}

/// Whether the compacted archive's offsets and length stay within the
/// machine's integer types at every step of `gc`.
pub open spec fn gc_ok(blocks: Seq<Block>, dir: Seq<Descriptor>, j: int, acc_len: int) -> bool
    decreases dir.len() - j,
{
    if j < 0 || j >= dir.len() {
        true
    } else {
        let d = dir[j];
        if d.content_type != 0 && d.section.offset + d.section.size <= blocks.len() {
            &&& acc_len <= u32::MAX
            &&& acc_len + d.section.size <= usize::MAX
            &&& gc_ok(blocks, dir, j + 1, acc_len + d.section.size)
        } else {
            gc_ok(blocks, dir, j + 1, acc_len)
        }
    }
}

/// `gc_ok` does not read the descriptors already rewritten.
proof fn lemma_gc_ok_update(
    blocks: Seq<Block>,
    dir: Seq<Descriptor>,
    j: int,
    acc_len: int,
    u: int,
    d: Descriptor,
)
    requires
        0 <= u < j,
        u < dir.len(),
        gc_ok(blocks, dir, j, acc_len),
    ensures
        gc_ok(blocks, dir.update(u, d), j, acc_len),
    decreases dir.len() - j,
{
    let diru = dir.update(u, d);
    assert(diru.len() == dir.len());
    if j < dir.len() {
        let e = dir[j];
        assert(diru[j] == e);
        if e.content_type != 0 && e.section.offset + e.section.size <= blocks.len() {
            assert(acc_len <= u32::MAX && acc_len + e.section.size <= usize::MAX && gc_ok(
                blocks,
                dir,
                j + 1,
                acc_len + e.section.size,
            ));
            lemma_gc_ok_update(blocks, dir, j + 1, acc_len + e.section.size, u, d);
            assert(gc_ok(blocks, diru, j + 1, acc_len + e.section.size));
            assert(gc_ok(blocks, diru, j, acc_len));
        } else {
            lemma_gc_ok_update(blocks, dir, j + 1, acc_len, u, d);
            assert(gc_ok(blocks, diru, j + 1, acc_len));
            assert(gc_ok(blocks, diru, j, acc_len));
        }
    } else {
        assert(j >= diru.len());
        assert(gc_ok(blocks, diru, j, acc_len));
    }
}


/// What `gc` does to each descriptor, seen from the walk's start at `j` with
/// `acc` blocks already kept: directory descriptors are untouched; a file
/// descriptor whose section lay inside the archive keeps its type, size,
/// nonce and name and its rebased section decrypts from the compacted blocks
/// to the very bytes it held before; a file whose section reached outside
/// loses it.
proof fn lemma_gc_spec_files(blocks: Seq<Block>, dir: Seq<Descriptor>, j: int, acc: Seq<Block>)
    requires
        0 <= j <= dir.len(),
        gc_ok(blocks, dir, j, acc.len() as int),
    ensures
        ({
            let r = gc_spec(blocks, dir, j, acc);
            &&& r.1.len() == dir.len()
            &&& forall|m: int| 0 <= m < j ==> r.1[m] == dir[m]
            &&& r.0.len() >= acc.len()
            &&& r.0.subrange(0, acc.len() as int) == acc
            &&& forall|m: int|
                #![trigger r.1[m]]
                j <= m < dir.len() ==> {
                    let d = dir[m];
                    &&& (d.content_type == 0 ==> r.1[m] == d)
                    &&& (d.content_type != 0 && d.section.offset + d.section.size <= blocks.len()
                        ==> {
                        &&& r.1[m].content_type == d.content_type
                        &&& r.1[m].content_size == d.content_size
                        &&& r.1[m].name_buf == d.name_buf
                        &&& r.1[m].section.size == d.section.size
                        &&& r.1[m].section.nonce == d.section.nonce
                        &&& r.1[m].section.offset >= acc.len()
                        &&& r.1[m].section.offset + r.1[m].section.size <= r.0.len()
                        &&& r.0.subrange(
                            r.1[m].section.offset as int,
                            r.1[m].section.offset + r.1[m].section.size,
                        ) == blocks.subrange(
                            d.section.offset as int,
                            d.section.offset + d.section.size,
                        )
                    })
                    &&& (d.content_type != 0 && d.section.offset + d.section.size > blocks.len()
                        ==> r.1[m] == Descriptor { section: spec_section_default(), ..d })
                }
        }),
    decreases dir.len() - j,
{
    if j < dir.len() {
        let d = dir[j];
        if d.content_type != 0 {
            if d.section.offset + d.section.size <= blocks.len() {
                let d2 = Descriptor {
                    section: Section {
                        offset: acc.len() as u32,
                        size: d.section.size,
                        nonce: d.section.nonce,
                    },
                    ..d
                };
                let sub = blocks.subrange(
                    d.section.offset as int,
                    d.section.offset + d.section.size,
                );
                let acc2 = acc + sub;
                let dir2 = dir.update(j, d2);
                lemma_gc_ok_update(blocks, dir, j + 1, acc2.len() as int, j, d2);
                lemma_gc_spec_files(blocks, dir2, j + 1, acc2);
                let r = gc_spec(blocks, dir, j, acc);
                assert(r == gc_spec(blocks, dir2, j + 1, acc2));
                assert(r.0.subrange(0, acc.len() as int) =~= acc);
                assert(r.1[j] == d2);
                assert(d2.section.offset == acc.len());
                assert forall|m: int|
                    #![trigger sub[m]]
                    0 <= m < d.section.size implies r.0.subrange(
                    acc.len() as int,
                    acc.len() + d.section.size,
                )[m] == sub[m] by {
                    assert(r.0.subrange(0, acc2.len() as int)[acc.len() + m] == acc2[acc.len()
                        + m]);
                }
                assert(r.0.subrange(acc.len() as int, acc.len() + d.section.size) =~= sub);
            } else {
                let d2 = Descriptor { section: spec_section_default(), ..d };
                let dir2 = dir.update(j, d2);
                lemma_gc_ok_update(blocks, dir, j + 1, acc.len() as int, j, d2);
                lemma_gc_spec_files(blocks, dir2, j + 1, acc);
                assert(gc_spec(blocks, dir, j, acc).1[j] == d2);
            }
        } else {
            lemma_gc_spec_files(blocks, dir, j + 1, acc);
        }
    }
}

/// GC preserves what can be read: for every file descriptor whose section
/// lay inside the archive before `gc`, the compacted archive holds, at the
/// rebased section, exactly the blocks the section held before — so the
/// section decrypts to the same bytes under the same nonce and key, and
/// `read_data` returns the same content.
pub proof fn lemma_gc_preserves_reads(
    blocks: Seq<Block>,
    dir: Seq<Descriptor>,
    j: int,
    key: Key,
)
    requires
        gc_ok(blocks, dir, 0, 5),
        0 <= j < dir.len(),
        dir[j].content_type != 0,
        dir[j].section.offset + dir[j].section.size <= blocks.len(),
    ensures
        ({
            let r = gc_spec(blocks, dir, 0, Seq::new(5, |m: int| [0u64, 0u64]));
            &&& r.1.len() == dir.len()
            &&& r.1[j].content_type == dir[j].content_type
            &&& r.1[j].content_size == dir[j].content_size
            &&& r.1[j].section.size == dir[j].section.size
            &&& r.1[j].section.nonce == dir[j].section.nonce
            &&& r.1[j].section.offset >= 5
            &&& r.1[j].section.offset + r.1[j].section.size <= r.0.len()
            &&& data_plain(
                r.0.subrange(
                    r.1[j].section.offset as int,
                    r.1[j].section.offset + r.1[j].section.size,
                ),
                r.1[j].section.nonce,
                key,
            ) == data_plain(
                blocks.subrange(
                    dir[j].section.offset as int,
                    dir[j].section.offset + dir[j].section.size,
                ),
                dir[j].section.nonce,
                key,
            )
        }),
{
    lemma_gc_spec_files(blocks, dir, 0, Seq::new(5, |m: int| [0u64, 0u64]));
}

/// `finish` preserves what can be read: a section that lies in the data
/// region, past the header and before the directory, holds the same blocks
/// in the finished archive as in the editor, so it decrypts to the same
/// bytes there.
pub proof fn lemma_finish_preserves_reads(
    pre: Seq<Block>,
    post: Seq<Block>,
    off: int,
    size: int,
)
    requires
        5 <= off,
        0 <= size,
        off + size <= pre.len() <= post.len(),
        post.subrange(5, pre.len() as int) == pre.subrange(5, pre.len() as int),
    ensures
        post.subrange(off, off + size) == pre.subrange(off, off + size),
{
    assert forall|m: int|
        #![trigger post.subrange(off, off + size)[m]]
        0 <= m < size implies post.subrange(off, off + size)[m] == pre.subrange(
        off,
        off + size,
    )[m] by {
        assert(post.subrange(off, off + size)[m] == post[off + m]);
        assert(pre.subrange(off, off + size)[m] == pre[off + m]);
        assert(post.subrange(5, pre.len() as int)[off - 5 + m] == post[off + m]);
        assert(pre.subrange(5, pre.len() as int)[off - 5 + m] == pre[off + m]);
        assert(post.subrange(5, pre.len() as int)[off - 5 + m] == pre.subrange(
            5,
            pre.len() as int,
        )[off - 5 + m]);
    }
    assert(post.subrange(off, off + size) =~= pre.subrange(off, off + size));
}

/// GC preserves what a reader returns, through `finish`: take any file
/// descriptor whose section lay inside the archive before `gc`, and any
/// finished archive `out` that keeps the compacted data region as `finish`
/// ensures it. The descriptor's compacted section lies past the header and
/// inside `out`, its content still fits it, and it decrypts out of `out` to
/// the very bytes the old section held — so `read_data`, whose contract
/// returns exactly these plaintext bytes, returns after `gc` and `finish`
/// what it would have returned before.
pub proof fn lemma_gc_finish_read_round(
    blocks: Seq<Block>,
    dir: Seq<Descriptor>,
    j: int,
    key: Key,
    out: Seq<Block>,
)
    requires
        gc_ok(blocks, dir, 0, 5),
        0 <= j < dir.len(),
        dir[j].content_type != 0,
        dir[j].section.offset + dir[j].section.size <= blocks.len(),
        ({
            let r = gc_spec(blocks, dir, 0, Seq::new(5, |m: int| [0u64, 0u64]));
            &&& out.len() >= r.0.len()
            &&& out.subrange(5, r.0.len() as int) == r.0.subrange(5, r.0.len() as int)
        }),
    ensures
        ({
            let r = gc_spec(blocks, dir, 0, Seq::new(5, |m: int| [0u64, 0u64]));
            let d2 = r.1[j];
            &&& r.1.len() == dir.len()
            &&& d2.content_type == dir[j].content_type
            &&& d2.content_size == dir[j].content_size
            &&& d2.section.size == dir[j].section.size
            &&& d2.section.offset >= 5
            &&& d2.section.offset + d2.section.size <= out.len()
            &&& data_plain(
                out.subrange(d2.section.offset as int, d2.section.offset + d2.section.size),
                d2.section.nonce,
                key,
            ) == data_plain(
                blocks.subrange(
                    dir[j].section.offset as int,
                    dir[j].section.offset + dir[j].section.size,
                ),
                dir[j].section.nonce,
                key,
            )
        }),
{
    lemma_gc_preserves_reads(blocks, dir, j, key);
    let r = gc_spec(blocks, dir, 0, Seq::new(5, |m: int| [0u64, 0u64]));
    let d2 = r.1[j];
    lemma_finish_preserves_reads(
        r.0,
        out,
        d2.section.offset as int,
        d2.section.size as int,
    );
}

/// What `allocate_data` establishes with the fresh nonce `nn`: the section
/// points at freshly appended blocks at the old tail, sized for the content.
pub open spec fn alloc_post(pre: MemoryEditFile, post: MemoryEditFile, nn: Block) -> bool {
    let obl = pre.editor().blocks().len() as int;
    let size = spec_bytes2blocks(pre.desc().content_size);
    &&& post.editor().dir() == pre.editor().dir().update(
        pre.index(),
        Descriptor {
            section: Section { offset: obl as u32, size: size, nonce: nn },
            ..pre.desc()
        },
    )
    &&& post.editor().blocks().len() == obl + size
    &&& post.editor().blocks().subrange(0, obl) == pre.editor().blocks()
}

/// What `create_file` establishes with the fresh nonce `nn`: the path's
/// descriptor is a file of the content's length whose fresh section at the
/// old tail decrypts to the content followed by zero padding.
pub open spec fn create_file_post(
    pre: MemoryEditor,
    post: MemoryEditor,
    path: Seq<u8>,
    content: Seq<u8>,
    key: Key,
    nn: Block,
) -> bool {
    let d1 = create_spec(pre.dir(), path).0;
    let idx = create_spec(pre.dir(), path).1;
    let size = spec_bytes2blocks(content.len() as u32);
    let obl = pre.blocks().len() as int;
    &&& post.dir() == d1.update(
        idx,
        Descriptor {
            content_type: 1u32,
            content_size: content.len() as u32,
            section: Section { offset: obl as u32, size: size, nonce: nn },
            name_buf: d1[idx].name_buf,
        },
    )
    &&& post.blocks().len() == obl + size
    &&& post.blocks().subrange(0, obl) == pre.blocks()
    &&& forall|p: int|
        #![trigger data_plain(post.blocks().subrange(obl, obl + size), nn, key)[p]]
        0 <= p < content.len() ==> data_plain(post.blocks().subrange(obl, obl + size), nn, key)[p]
            == content[p]
    &&& forall|p: int|
        #![trigger data_plain(post.blocks().subrange(obl, obl + size), nn, key)[p]]
        content.len() <= p < 16 * size ==> data_plain(
            post.blocks().subrange(obl, obl + size),
            nn,
            key,
        )[p] == 0
}

/// What `reencrypt_data` establishes with the fresh nonce `nn`: the section
/// holds new ciphertext that decrypts under the new nonce and key to the
/// same bytes the old ciphertext did under the old.
pub open spec fn reencrypt_post(
    pre: MemoryEditFile,
    post: MemoryEditFile,
    old_key: Key,
    new_key: Key,
    nn: Block,
) -> bool {
    let off = pre.desc().section.offset as int;
    let size = pre.desc().section.size as int;
    &&& post.editor().dir() == pre.editor().dir().update(
        pre.index(),
        Descriptor {
            section: Section { nonce: nn, ..pre.desc().section },
            ..pre.desc()
        },
    )
    &&& data_plain(post.editor().blocks().subrange(off, off + size), nn, new_key) == data_plain(
        pre.editor().blocks().subrange(off, off + size),
        pre.desc().section.nonce,
        old_key,
    )
}

/// What `finish` establishes with the sealed plaintext header `h`: random
/// HMAC, IV and nonce aside, the header records version zero and the
/// directory's place, the first five output blocks hold its CBC encryption,
/// and the tail holds the counter-mode encrypted directory.
pub open spec fn finish_post(
    ed: MemoryEditor,
    key: Key,
    out_blocks: Seq<Block>,
    h: Header,
) -> bool {
    &&& h.info.version == InfoHeader::VERSION
    &&& h.info.unused == [0u32]
    &&& h.info.directory.offset == ed.blocks().len()
    &&& h.info.directory.size == ed.dir().len()
    &&& out_blocks.subrange(0, 5) == crate::codec::header_blocks(encrypt_header_spec(h, key))
    &&& out_blocks.skip(ed.blocks().len() as int) == crypt_blocks(
        dir_blocks(update_addr_spec(ed.dir())),
        h.info.directory.nonce,
        key,
    )
}

impl MemoryEditor {
    /// The archive's blocks, header space included.
    pub closed spec fn blocks(self) -> Seq<Block> {
        self.blocks@
    }

    /// The plaintext directory.
    pub closed spec fn dir(self) -> Seq<Descriptor> {
        self.dir@
    }

    /// The blocks always hold at least the header's space.
    pub closed spec fn wf(self) -> bool {
        self.blocks@.len() >= 5
    }

    /// Creates a new, empty `MemoryEditor`: space for the header, no
    /// descriptors.
    pub fn new() -> (r: MemoryEditor)
        ensures
            r.wf(),
            r.blocks().len() == 5,
            forall|m: int| 0 <= m < 5 ==> r.blocks()[m] == [0u64, 0u64],
            r.dir().len() == 0,
    {
        let mut blocks: Vec<Block> = Vec::new();
        push_zero_blocks(&mut blocks, 5);
        MemoryEditor { blocks, dir: Vec::new() }
    }

    /// Creates a `MemoryEditor` from an existing encrypted PAK file.
    ///
    /// Input too small for a header is padded with zero blocks and yields an
    /// empty directory. Otherwise the header is decrypted, the directory
    /// decrypted out of its section (or left empty when that section reaches
    /// outside the blocks), and the blocks are truncated when the encrypted
    /// directory sat exactly at their tail.
    pub fn from_blocks(blocks: Vec<Block>, key: &Key) -> (r: MemoryEditor)
        ensures
            r.wf(),
            blocks@.len() < 5 ==> {
                &&& r.blocks().len() == 5
                &&& r.blocks().subrange(0, blocks@.len() as int) == blocks@
                &&& r.dir().len() == 0
            },
            blocks@.len() >= 5 ==> ({
                let sec = crate::memory_reader::stored_info(blocks@, *key).directory;
                &&& r.dir() == (if dir_in_range(blocks@.len() as int, sec) {
                    decrypt_dir_spec(blocks@, sec, *key)
                } else {
                    Seq::<Descriptor>::empty()
                })
                &&& r.blocks() == (if sec.offset >= 5 && sec.offset + sec.size * 4
                    == blocks@.len() {
                    blocks@.subrange(0, sec.offset as int)
                } else {
                    blocks@
                })
            }),
    {
        let mut blocks = blocks;
        if blocks.len() < Header::BLOCKS_LEN {
            let n = Header::BLOCKS_LEN - blocks.len();
            push_zero_blocks(&mut blocks, n);
            return MemoryEditor { blocks, dir: Vec::new() };
        }
        let hb: [Block; 5] = [blocks[0], blocks[1], blocks[2], blocks[3], blocks[4]];
        proof {
            assert(hb@ =~= blocks@.subrange(0, 5));
        }
        let header = crate::codec::header_from_blocks(&hb);
        let info = crypt::decrypt_header(&header, key);
        let dir = crypt::decrypt_dir(blocks.as_slice(), &info.directory, key);
        proof {
            if !dir_in_range(blocks@.len() as int, info.directory) {
                assert(dir@ =~= Seq::<Descriptor>::empty());
            }
        }
        if info.directory.offset >= 5 && (info.directory.offset as u64) + (info.directory.size
            as u64) * 4 == blocks.len() as u64 {
            blocks.truncate(info.directory.offset as usize);
        }
        MemoryEditor { blocks, dir }
    }

    /// Starts editing the file descriptor at the given path, creating it and
    /// any missing parent directories first. The editor moves into the
    /// returned `MemoryEditFile`; `finish_edit` hands it back.
    pub fn edit_file(self, path: &[u8]) -> (r: MemoryEditFile)
        requires
            spec_create_ok(self.dir(), path@),
            self.dir().len() + path@.len() + 1 <= usize::MAX,
            path@.len() + 1 <= i32::MAX,
        ensures
            r.editor().wf() == self.wf(),
            r.editor().blocks() == self.blocks(),
            r.editor().dir() == create_spec(self.dir(), path@).0,
            r.index() == create_spec(self.dir(), path@).1,
            0 <= r.index() < r.editor().dir().len(),
    {
        let mut ed = self;
        let ghost dir0 = ed.dir@;
        // A dry walk recomputes the index of the descriptor `create` returns,
        // since `create` hands back only the reference.
        let mut tail: &[u8] = path;
        let i = directory::dir_inc(&mut ed.dir, &mut tail, 0);
        proof {
            directory::lemma_dir_inc_zero(dir0, 0, dir0.len() as int, path@);
            directory::lemma_dir_inc_tail_len(dir0, 0, dir0.len() as int, path@, 0);
        }
        let k: usize = if tail.len() == 0 {
            0
        } else {
            proof {
                directory::lemma_flenck_bound(tail@, 0, 0);
            }
            directory::flenck(tail)
        };
        let index = if k == 0 {
            i
        } else {
            i + k - 1
        };
        {
            // The returned reference is left untouched: the fresh descriptor
            // is edited through the handle's index instead.
            let _unedited = directory::create(&mut ed.dir, path);
        }
        proof {
            assert(ed.dir@ =~= create_spec(dir0, path@).0);
        }
        MemoryEditFile { editor: ed, index }
    }

    /// Creates a file at the given path: the descriptor gets content type 1
    /// and the content's length, a fresh section is bump-allocated at the
    /// archive's tail under a fresh nonce, and the content is encrypted into
    /// it with zero padding.
    pub fn create_file(&mut self, path: &[u8], content: &[u8], key: &Key)
        requires
            spec_create_ok(old(self).dir(), path@),
            old(self).dir().len() + path@.len() + 1 <= usize::MAX,
            path@.len() + 1 <= i32::MAX,
            content@.len() <= u32::MAX,
            old(self).blocks().len() <= u32::MAX,
            old(self).blocks().len() + spec_bytes2blocks(content@.len() as u32) <= usize::MAX,
            16 * (old(self).blocks().len() + spec_bytes2blocks(content@.len() as u32))
                <= usize::MAX,
        ensures
            exists|nn: Block| create_file_post(*old(self), *final(self), path@, content@, *key, nn),
    {
        let mut f = self.take().edit_file(path);
        f.set_content(1, content.len() as u32);
        let ghost pre_alloc = f;
        f.allocate_data();
        let ghost post_alloc = f;
        f.init_data(content, key);
        *self = f.finish_edit();
        proof {
            let nn = choose|nn: Block| alloc_post(pre_alloc, post_alloc, nn);
            assert(alloc_post(pre_alloc, post_alloc, nn));
            let d1 = create_spec(old(self).dir(), path@).0;
            let idx = create_spec(old(self).dir(), path@).1;
            let size = spec_bytes2blocks(content@.len() as u32);
            let obl = old(self).blocks().len() as int;
            assert(self.dir() =~= d1.update(
                idx,
                Descriptor {
                    content_type: 1u32,
                    content_size: content@.len() as u32,
                    section: Section { offset: obl as u32, size: size, nonce: nn },
                    name_buf: d1[idx].name_buf,
                },
            ));
            assert(self.blocks().subrange(0, obl) =~= old(self).blocks());
            let oldsec = post_alloc.editor().blocks().subrange(obl, obl + size);
            let newsec = self.blocks().subrange(obl, obl + size);
            if content@.len() > 0 {
                assert(content@.len() <= 16 * size && size >= 1) by (nonlinear_arith)
                    requires
                        size == spec_bytes2blocks(content@.len() as u32),
                        0 < content@.len() <= u32::MAX,
                ;
                assert(encrypt_data_post(oldsec, newsec, nn, *key, 0, content@, Pad::Zero));
                assert forall|p: int| content@.len() <= p < 16 * size implies data_plain(
                    newsec,
                    nn,
                    *key,
                )[p] == 0 by {
                    assert(0 <= p / 16 <= (content@.len() - 1) / 16) by (nonlinear_arith)
                        requires
                            content@.len() <= p < 16 * size,
                            size == spec_bytes2blocks(content@.len() as u32),
                            0 < content@.len() <= u32::MAX,
                    ;
                }
            } else {
                assert(size == 0);
                assert(self.blocks() =~= old(self).blocks());
            }
            assert(create_file_post(*old(self), *self, path@, content@, *key, nn));
        }
    }

    /// Creates a symbolic link: a descriptor at the path that shares the
    /// content type, size and section of an existing file descriptor.
    pub fn create_symlink(&mut self, path: &[u8], file_desc: &Descriptor)
        requires
            spec_create_ok(old(self).dir(), path@),
            old(self).dir().len() + path@.len() + 1 <= usize::MAX,
            path@.len() + 1 <= i32::MAX,
        ensures
            final(self).blocks() == old(self).blocks(),
            ({
                let (d1, idx) = create_spec(old(self).dir(), path@);
                final(self).dir() == d1.update(
                    idx,
                    Descriptor {
                        content_type: (if file_desc.content_type == 0 {
                            1u32
                        } else {
                            file_desc.content_type
                        }),
                        content_size: file_desc.content_size,
                        section: file_desc.section,
                        name_buf: d1[idx].name_buf,
                    },
                )
            }),
    {
        let mut f = self.take().edit_file(path);
        f.set_content(file_desc.content_type, file_desc.content_size);
        f.set_section(&file_desc.section);
        *self = f.finish_edit();
    }

    /// Creates a directory descriptor at the given path, with no descendants
    /// of its own and a zero section. Any missing parent directories are
    /// created too.
    pub fn create_dir(&mut self, path: &[u8])
        requires
            spec_create_ok(old(self).dir(), path@),
            old(self).dir().len() + path@.len() + 1 <= usize::MAX,
            path@.len() + 1 <= i32::MAX,
        ensures
            final(self).blocks() == old(self).blocks(),
            ({
                let (d1, idx) = create_spec(old(self).dir(), path@);
                final(self).dir() == d1.update(
                    idx,
                    Descriptor {
                        content_type: 0u32,
                        content_size: 0u32,
                        section: spec_section_default(),
                        name_buf: d1[idx].name_buf,
                    },
                )
            }),
    {
        let d = directory::create(&mut self.dir, path);
        d.content_type = 0;
        d.content_size = 0;
        d.section = Section { offset: 0, size: 0, nonce: [0, 0] };
    }

    /// Swaps the editor out for an empty one, so that a by-value method can
    /// take it from behind a mutable reference.
    fn take(&mut self) -> (r: MemoryEditor)
        ensures
            r == *old(self),
    {
        let mut tmp = MemoryEditor { blocks: Vec::new(), dir: Vec::new() };
        core::mem::swap(&mut tmp, self);
        tmp
    }

    /// Removes the descriptor at the given path.
    ///
    /// Returns `false`, leaving everything untouched, if no descriptor stands
    /// at the path; otherwise removes the slot (the children of a removed
    /// directory move to its parent), copies the removed descriptor into
    /// `deleted` when one is given, and returns `true`.
    pub fn remove(&mut self, path: &[u8], deleted: Option<&mut Descriptor>) -> (r: bool)
        ensures
            final(self).blocks() == old(self).blocks(),
            r == remove_finds(old(self).dir(), path@),
            final(self).dir() == remove_spec(old(self).dir(), path@),
    {
        directory::remove(&mut self.dir, path, deleted)
    }

    /// Compacts the archive: rebuilds the blocks from scratch, keeping only
    /// the sections that file descriptors reference and rebasing their
    /// offsets; a file whose section reaches outside the archive loses it.
    /// Directory descriptors are left alone; their sections are set by
    /// `finish`.
    pub fn gc(&mut self)
        requires
            gc_ok(old(self).blocks(), old(self).dir(), 0, 5),
        ensures
            final(self).wf(),
            final(self).blocks() == gc_spec(
                old(self).blocks(),
                old(self).dir(),
                0,
                Seq::new(5, |m: int| [0u64, 0u64]),
            ).0,
            final(self).dir() == gc_spec(
                old(self).blocks(),
                old(self).dir(),
                0,
                Seq::new(5, |m: int| [0u64, 0u64]),
            ).1,
    {
        let ghost blocks0 = self.blocks@;
        let ghost acc0 = Seq::new(5, |m: int| [0u64, 0u64]);
        let mut nb: Vec<Block> = Vec::new();
        push_zero_blocks(&mut nb, 5);
        proof {
            assert(nb@ =~= acc0);
        }
        let mut j: usize = 0;
        while j < self.dir.len()
            invariant
                j <= self.dir@.len(),
                self.blocks@ == blocks0,
                nb@.len() >= 5,
                gc_spec(blocks0, old(self).dir(), 0, acc0) == gc_spec(
                    blocks0,
                    self.dir@,
                    j as int,
                    nb@,
                ),
                gc_ok(blocks0, self.dir@, j as int, nb@.len() as int),
            decreases self.dir@.len() - j,
        {
            let d = self.dir[j];
            if d.content_type != 0 {
                if (d.section.offset as u64) + (d.section.size as u64) <= self.blocks.len() as u64 {
                    let offset = nb.len();
                    let off = d.section.offset as usize;
                    let size = d.section.size as usize;
                    let sub = copy_section(&self.blocks, off, size);
                    let ghost nb0 = nb@;
                    let mut t: usize = 0;
                    while t < size
                        invariant
                            t <= size,
                            sub@.len() == size,
                            nb0.len() + size <= usize::MAX,
                            nb@ == nb0 + sub@.subrange(0, t as int),
                        decreases size - t,
                    {
                        nb.push(sub[t]);
                        proof {
                            assert(nb@ =~= nb0 + sub@.subrange(0, t + 1));
                        }
                        t = t + 1;
                    }
                    proof {
                        assert(nb@ =~= nb0 + sub@);
                    }
                    let mut d2 = d;
                    d2.section.offset = offset as u32;
                    let ghost dir_pre = self.dir@;
                    self.dir[j] = d2;
                    proof {
                        lemma_gc_ok_update(
                            blocks0,
                            dir_pre,
                            j as int + 1,
                            nb@.len() as int,
                            j as int,
                            d2,
                        );
                        assert(self.dir@ == dir_pre.update(j as int, d2));
                    }
                } else {
                    let mut d2 = d;
                    d2.section = Section { offset: 0, size: 0, nonce: [0, 0] };
                    let ghost dir_pre = self.dir@;
                    self.dir[j] = d2;
                    proof {
                        lemma_gc_ok_update(
                            blocks0,
                            dir_pre,
                            j as int + 1,
                            nb@.len() as int,
                            j as int,
                            d2,
                        );
                        assert(self.dir@ == dir_pre.update(j as int, d2));
                    }
                }
            }
            j = j + 1;
        }
        self.blocks = nb;
    }

    /// Finishes editing the PAK file.
    ///
    /// Finalises the directory addresses, seals the header (fresh random
    /// HMAC bytes, IV and directory nonce; version and padding zero; the
    /// directory located right after the data blocks), CBC-encrypts it in
    /// place, and appends the counter-mode encrypted directory. Returns the
    /// encrypted archive and the plaintext directory for inspection.
    pub fn finish(self, key: &Key) -> (r: (Vec<Block>, Vec<Descriptor>))
        requires
            self.wf(),
            self.blocks().len() <= u32::MAX,
            self.dir().len() <= u32::MAX,
            self.blocks().len() + self.dir().len() * 4 <= usize::MAX,
        ensures
            r.1@ == update_addr_spec(self.dir()),
            r.0@.len() == self.blocks().len() + 4 * self.dir().len(),
            r.0@.subrange(5, self.blocks().len() as int) == self.blocks().subrange(
                5,
                self.blocks().len() as int,
            ),
            exists|h: Header| finish_post(self, *key, r.0@, h),
    {
        let MemoryEditor { mut blocks, mut dir } = self;
        let ghost blocks0 = blocks@;
        directory::update_dir_address(dir.as_mut_slice());
        // Fresh randomness for the HMAC field, the IV and the directory nonce.
        let mut rb: Vec<Block> = Vec::new();
        push_zero_blocks(&mut rb, 4);
        crypt::random(rb.as_mut_slice());
        let nonce: Block = rb[3];
        let mut header = Header {
            hmac: [
                crate::codec::word_lo(rb[0][0]),
                crate::codec::word_hi(rb[0][0]),
                crate::codec::word_lo(rb[0][1]),
                crate::codec::word_hi(rb[0][1]),
                crate::codec::word_lo(rb[1][0]),
                crate::codec::word_hi(rb[1][0]),
                crate::codec::word_lo(rb[1][1]),
                crate::codec::word_hi(rb[1][1]),
            ],
            iv: rb[2],
            info: InfoHeader {
                version: InfoHeader::VERSION,
                unused: [0],
                directory: Section {
                    offset: blocks.len() as u32,
                    size: dir.len() as u32,
                    nonce,
                },
            },
        };
        let ghost h0 = header;
        crypt::encrypt_header_inplace(&mut header, key);
        let hb = crate::codec::header_to_blocks(&header);
        let mut t: usize = 0;
        while t < 5
            invariant
                t <= 5,
                blocks@.len() == blocks0.len() >= 5,
                hb@ == crate::codec::header_blocks(encrypt_header_spec(h0, *key)),
                forall|m: int| 0 <= m < t ==> blocks@[m] == hb@[m],
                forall|m: int| t <= m < blocks@.len() ==> blocks@[m] == blocks0[m],
            decreases 5 - t,
        {
            blocks[t] = hb[t];
            t = t + 1;
        }
        // Encrypt the directory into freshly appended blocks.
        let dlen = dir.len();
        let mut encdir: Vec<Block> = Vec::new();
        push_zero_blocks(&mut encdir, dlen * 4);
        crypt::encrypt_dir(dir.as_slice(), &nonce, key, encdir.as_mut_slice());
        let ghost data_end = blocks@.len() as int;
        let ghost pre = blocks@;
        blocks.append(&mut encdir);
        proof {
            assert(blocks@.subrange(0, 5) =~= crate::codec::header_blocks(
                encrypt_header_spec(h0, *key),
            ));
            assert(blocks@.subrange(5, data_end) =~= blocks0.subrange(5, data_end));
            assert(blocks@.skip(data_end) =~= crypt_blocks(dir_blocks(dir@), nonce, *key));
            assert(h0.info.unused =~= [0u32]);
            assert(finish_post(self, *key, blocks@, h0));
        }
        (blocks, dir)
    }
}

/// Editing handle for one file descriptor: owns the editor and the index of
/// the descriptor under edit. `finish_edit` hands the editor back.
pub struct MemoryEditFile {
    editor: MemoryEditor,
    index: usize,
}

impl MemoryEditFile {
    /// The editor under edit.
    pub closed spec fn editor(self) -> MemoryEditor {
        self.editor
    }

    /// The index of the descriptor under edit.
    pub closed spec fn index(self) -> int {
        self.index as int
    }

    /// The handle points inside the directory.
    pub open spec fn wf(self) -> bool {
        0 <= self.index() < self.editor().dir().len()
    }

    /// The descriptor under edit.
    pub open spec fn desc(self) -> Descriptor {
        self.editor().dir()[self.index()]
    }

    /// Hands the editor back when the edit is done.
    pub fn finish_edit(self) -> (r: MemoryEditor)
        ensures
            r == self.editor(),
    {
        self.editor
    }

    /// Sets the content type and size of this file descriptor; a type of
    /// zero, reserved for directories, is stored as 1.
    pub fn set_content(&mut self, content_type: u32, content_size: u32)
        requires
            old(self).wf(),
        ensures
            final(self).wf(),
            final(self).index() == old(self).index(),
            final(self).editor().blocks() == old(self).editor().blocks(),
            final(self).editor().dir() == old(self).editor().dir().update(
                old(self).index(),
                Descriptor {
                    content_type: (if content_type == 0 {
                        1u32
                    } else {
                        content_type
                    }),
                    content_size: content_size,
                    ..old(self).desc()
                },
            ),
    {
        let mut d = self.editor.dir[self.index];
        d.content_type = if content_type == 0 {
            1
        } else {
            content_type
        };
        d.content_size = content_size;
        self.editor.dir[self.index] = d;
    }

    /// The content type of this file descriptor.
    pub fn content_type(&self) -> (r: u32)
        requires
            self.wf(),
        ensures
            r == self.desc().content_type,
    {
        self.editor.dir[self.index].content_type
    }

    /// The content size of this file descriptor.
    pub fn content_size(&self) -> (r: u32)
        requires
            self.wf(),
        ensures
            r == self.desc().content_size,
    {
        self.editor.dir[self.index].content_size
    }

    /// Assigns an existing section to this file descriptor, so that several
    /// descriptors can share one payload.
    pub fn set_section(&mut self, section: &Section)
        requires
            old(self).wf(),
        ensures
            final(self).wf(),
            final(self).index() == old(self).index(),
            final(self).editor().blocks() == old(self).editor().blocks(),
            final(self).editor().dir() == old(self).editor().dir().update(
                old(self).index(),
                Descriptor { section: *section, ..old(self).desc() },
            ),
    {
        let mut d = self.editor.dir[self.index];
        d.section = *section;
        self.editor.dir[self.index] = d;
    }

    /// The section of this file descriptor.
    pub fn section(&self) -> (r: Section)
        requires
            self.wf(),
        ensures
            r == self.desc().section,
    {
        self.editor.dir[self.index].section
    }

    /// Bump-allocates space for the file's content at the archive's tail:
    /// the section points at freshly appended zero blocks, enough for the
    /// content size set before, under a fresh random nonce. The space is
    /// logically uninitialised until `init_data` or `zero_data` runs.
    pub fn allocate_data(&mut self)
        requires
            old(self).wf(),
            old(self).editor().blocks().len() <= u32::MAX,
            old(self).editor().blocks().len() + spec_bytes2blocks(old(self).desc().content_size)
                <= usize::MAX,
        ensures
            final(self).wf(),
            final(self).index() == old(self).index(),
            exists|nn: Block| alloc_post(*old(self), *final(self), nn),
    {
        let obl = self.editor.blocks.len();
        let size = bytes2blocks(self.editor.dir[self.index].content_size);
        let mut d = self.editor.dir[self.index];
        d.section.offset = obl as u32;
        d.section.size = size;
        d.section.nonce = crypt::random_block();
        let ghost nn = d.section.nonce;
        self.editor.dir[self.index] = d;
        push_zero_blocks(&mut self.editor.blocks, size as usize);
        proof {
            assert(alloc_post(*old(self), *self, nn));
        }
    }

    /// Encrypts the content into this descriptor's section with zero
    /// padding, for a freshly allocated, never-written section. Content
    /// longer than the section changes nothing.
    pub fn init_data(&mut self, content: &[u8], key: &Key)
        requires
            old(self).wf(),
            old(self).desc().section.offset + old(self).desc().section.size <= old(self).editor().blocks().len(),
            16 * old(self).editor().blocks().len() <= usize::MAX,
        ensures
            final(self).wf(),
            final(self).index() == old(self).index(),
            final(self).editor().dir() == old(self).editor().dir(),
            final(self).editor().blocks().len() == old(self).editor().blocks().len(),
            forall|m: int|
                0 <= m < old(self).editor().blocks().len() && !(old(self).desc().section.offset
                    <= m < old(self).desc().section.offset + old(self).desc().section.size)
                    ==> final(self).editor().blocks()[m] == old(self).editor().blocks()[m],
            content@.len() > 0 && content@.len() <= 16 * old(self).desc().section.size
                ==> encrypt_data_post(
                old(self).editor().blocks().subrange(
                    old(self).desc().section.offset as int,
                    old(self).desc().section.offset + old(self).desc().section.size,
                ),
                final(self).editor().blocks().subrange(
                    old(self).desc().section.offset as int,
                    old(self).desc().section.offset + old(self).desc().section.size,
                ),
                old(self).desc().section.nonce,
                *key,
                0,
                content@,
                Pad::Zero,
            ),
            content@.len() == 0 || content@.len() > 16 * old(self).desc().section.size ==> final(self).editor().blocks() == old(self).editor().blocks(),
    {
        let off = self.editor.dir[self.index].section.offset as usize;
        let size = self.editor.dir[self.index].section.size as usize;
        let nonce = self.editor.dir[self.index].section.nonce;
        let clen = content.len();
        let mut sub = copy_section(&self.editor.blocks, off, size);
        proof {
            let sl = sub@.len() as int;
            let bl = old(self).editor().blocks().len() as int;
            assert(sl <= bl ==> 16 * sl <= 16 * bl) by (nonlinear_arith);
        }
        let ghost sub0 = sub@;
        crypt::encrypt_data(sub.as_mut_slice(), &nonce, key, 0, content, Pad::Zero);
        write_section(&mut self.editor.blocks, off, &sub);
        proof {
            if clen == 0 || clen > 16 * size {
                assert(sub@ == sub0);
                assert forall|m: int|
                    0 <= m < old(self).editor().blocks().len() implies self.editor.blocks@[m]
                    == old(self).editor().blocks()[m] by {
                    if off <= m < off + size {
                        assert(self.editor.blocks@[off + (m - off)] == sub@[m - off]);
                    }
                }
                assert(self.editor.blocks@ =~= old(self).editor().blocks());
            }
        }
    }

    /// Writes the raw keystream over this descriptor's section: the
    /// encryption of all-zero content.
    pub fn zero_data(&mut self, key: &Key)
        requires
            old(self).wf(),
            old(self).desc().section.offset + old(self).desc().section.size <= old(self).editor().blocks().len(),
        ensures
            final(self).wf(),
            final(self).index() == old(self).index(),
            final(self).editor().dir() == old(self).editor().dir(),
            final(self).editor().blocks().len() == old(self).editor().blocks().len(),
            forall|m: int|
                0 <= m < old(self).editor().blocks().len() && !(old(self).desc().section.offset
                    <= m < old(self).desc().section.offset + old(self).desc().section.size)
                    ==> final(self).editor().blocks()[m] == old(self).editor().blocks()[m],
            forall|m: int|
                0 <= m < old(self).desc().section.size ==> final(self).editor().blocks()[old(self).desc().section.offset + m] == keystream(old(self).desc().section.nonce, *key, m),
    {
        let off = self.editor.dir[self.index].section.offset as usize;
        let size = self.editor.dir[self.index].section.size as usize;
        let nonce = self.editor.dir[self.index].section.nonce;
        let mut sub = copy_section(&self.editor.blocks, off, size);
        crypt::encrypt_zero(sub.as_mut_slice(), &nonce, key);
        write_section(&mut self.editor.blocks, off, &sub);
    }

    /// Encrypts content into a byte range of this descriptor's already
    /// initialised section, preserving the other bytes' plaintext. A range
    /// that reaches outside the section changes nothing.
    pub fn copy_data(&mut self, byte_offset: usize, content: &[u8], key: &Key)
        requires
            old(self).wf(),
            old(self).desc().section.offset + old(self).desc().section.size <= old(self).editor().blocks().len(),
            16 * old(self).editor().blocks().len() <= usize::MAX,
            byte_offset + content@.len() <= usize::MAX,
        ensures
            final(self).wf(),
            final(self).index() == old(self).index(),
            final(self).editor().dir() == old(self).editor().dir(),
            final(self).editor().blocks().len() == old(self).editor().blocks().len(),
            forall|m: int|
                0 <= m < old(self).editor().blocks().len() && !(old(self).desc().section.offset
                    <= m < old(self).desc().section.offset + old(self).desc().section.size)
                    ==> final(self).editor().blocks()[m] == old(self).editor().blocks()[m],
            content@.len() > 0 && byte_offset + content@.len() <= 16 * old(self).desc().section.size ==> encrypt_data_post(
                old(self).editor().blocks().subrange(
                    old(self).desc().section.offset as int,
                    old(self).desc().section.offset + old(self).desc().section.size,
                ),
                final(self).editor().blocks().subrange(
                    old(self).desc().section.offset as int,
                    old(self).desc().section.offset + old(self).desc().section.size,
                ),
                old(self).desc().section.nonce,
                *key,
                byte_offset as int,
                content@,
                Pad::Transparent,
            ),
            content@.len() == 0 || byte_offset + content@.len() > 16 * old(self).desc().section.size ==> final(self).editor().blocks() == old(self).editor().blocks(),
    {
        let off = self.editor.dir[self.index].section.offset as usize;
        let size = self.editor.dir[self.index].section.size as usize;
        let nonce = self.editor.dir[self.index].section.nonce;
        let clen = content.len();
        let mut sub = copy_section(&self.editor.blocks, off, size);
        proof {
            let sl = sub@.len() as int;
            let bl = old(self).editor().blocks().len() as int;
            assert(sl <= bl ==> 16 * sl <= 16 * bl) by (nonlinear_arith);
        }
        let ghost sub0 = sub@;
        crypt::encrypt_data(sub.as_mut_slice(), &nonce, key, byte_offset, content, Pad::Transparent);
        write_section(&mut self.editor.blocks, off, &sub);
        proof {
            if clen == 0 || byte_offset + clen > 16 * size {
                assert(sub@ == sub0);
                assert forall|m: int|
                    0 <= m < old(self).editor().blocks().len() implies self.editor.blocks@[m]
                    == old(self).editor().blocks()[m] by {
                    if off <= m < off + size {
                        assert(self.editor.blocks@[off + (m - off)] == sub@[m - off]);
                    }
                }
                assert(self.editor.blocks@ =~= old(self).editor().blocks());
            }
        }
    }

    /// Re-encrypts this descriptor's section under a fresh random nonce and
    /// the new key, without the plaintext ever appearing: the new ciphertext
    /// decrypts under the new nonce and key to the same bytes the old one
    /// did under the old.
    pub fn reencrypt_data(&mut self, old_key: &Key, new_key: &Key)
        requires
            old(self).wf(),
            old(self).desc().section.offset + old(self).desc().section.size <= old(self).editor().blocks().len(),
        ensures
            final(self).wf(),
            final(self).index() == old(self).index(),
            final(self).editor().blocks().len() == old(self).editor().blocks().len(),
            forall|m: int|
                0 <= m < old(self).editor().blocks().len() && !(old(self).desc().section.offset
                    <= m < old(self).desc().section.offset + old(self).desc().section.size)
                    ==> final(self).editor().blocks()[m] == old(self).editor().blocks()[m],
            exists|nn: Block| reencrypt_post(*old(self), *final(self), *old_key, *new_key, nn),
    {
        let off = self.editor.dir[self.index].section.offset as usize;
        let size = self.editor.dir[self.index].section.size as usize;
        let old_nonce = self.editor.dir[self.index].section.nonce;
        let new_nonce = crypt::random_block();
        let mut d = self.editor.dir[self.index];
        d.section.nonce = new_nonce;
        self.editor.dir[self.index] = d;
        let mut sub = copy_section(&self.editor.blocks, off, size);
        crypt::reencrypt_data(sub.as_mut_slice(), &old_nonce, &new_nonce, old_key, new_key);
        write_section(&mut self.editor.blocks, off, &sub);
        proof {
            assert(self.editor.blocks@.subrange(off as int, off + size) =~= sub@);
            assert(reencrypt_post(*old(self), *self, *old_key, *new_key, new_nonce));
        }
    }
}

} // verus!
