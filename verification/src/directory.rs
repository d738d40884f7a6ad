//! The directory algebra: pure operations over a flat vector of fixed-size
//! descriptors that encodes a tree in pre-order. A directory descriptor's
//! `content_size` counts all of its descendants, so every subtree occupies a
//! contiguous index range whose bound `next_sibling` computes.

use vstd::prelude::*;
use vstd::string::StringExecFns;
use crate::{spec_name, spec_set_name_buf, spec_desc_default, Block, Descriptor, Key, Section};
use crate::crypt::{self, counter_spec, crypt_desc_spec};

verus! {

broadcast use vstd::array::group_array_axioms;

/// Is this byte a path separator?
pub open spec fn is_sep(c: u8) -> bool {
    c == 47 || c == 92
}

/// Matches a name against the next component of a path: the name must be a
/// non-empty prefix of the path, ended either by the end of the path or by a
/// separator. On a match, yields the path after the component (and after the
/// separator, where one stands). Empty names never match.
pub open spec fn path_match(name: Seq<u8>, path: Seq<u8>) -> Option<Seq<u8>> {
    if name.len() == 0 {
        None
    } else if path.len() < name.len() {
        None
    } else if path.take(name.len() as int) != name {
        None
    } else if path.len() == name.len() {
        Some(Seq::empty())
    } else if is_sep(path[name.len() as int]) {
        Some(path.skip(name.len() as int + 1))
    } else {
        None
    }
}

/// Compares the next component of the path with the descriptor's name.
///
/// Returns `None` if the path does not match, otherwise the path with the
/// descriptor's name (and separator) removed.
pub fn name_eq<'a>(desc: &Descriptor, path: &'a [u8]) -> (r: Option<&'a [u8]>)
    ensures
        r matches Some(t) ==> path_match(spec_name(*desc), path@) == Some(t@),
        r is None ==> path_match(spec_name(*desc), path@) is None,
{
    let name = desc.name();
    if name.len() == 0 {
        return None;
    }
    if path.len() < name.len() {
        return None;
    }
    let mut i: usize = 0;
    while i < name.len()
        invariant
            name@ == spec_name(*desc),
            name@.len() <= path@.len(),
            name@.len() >= 1,
            i <= name@.len(),
            forall|j: int| 0 <= j < i ==> name@[j] == path@[j],
        decreases name@.len() - i,
    {
        if name[i] != path[i] {
            proof {
                assert(path@.take(name@.len() as int)[i as int] != name@[i as int]);
            }
            return None;
        }
        i = i + 1;
    }
    proof {
        assert(path@.take(name@.len() as int) =~= name@);
    }
    if path.len() == name.len() {
        let t = &path[path.len()..path.len()];
        proof {
            assert(t@ =~= Seq::<u8>::empty());
        }
        return Some(t);
    }
    let c = path[name.len()];
    if c == 47 || c == 92 {
        let t = &path[name.len() + 1..path.len()];
        proof {
            assert(t@ =~= path@.skip(name@.len() as int + 1));
        }
        return Some(t);
    }
    None
}

/// The index just past the subtree of the descriptor at `i` in a window that
/// ends at `end`: `i + 1` for a file, and `i + 1 + content_size` for a
/// directory, with the count clamped into the window so that a corrupt
/// descriptor cannot point outside it.
pub open spec fn next_sib(d: Descriptor, i: int, end: int) -> int {
    if d.content_type == 0 {
        let max_size = end - (i + 1);
        let min_size = if d.content_size as int <= max_size {
            d.content_size as int
        } else {
            max_size
        };
        i + 1 + min_size
    } else {
        i + 1
    }
}

/// Calculates the next sibling index for the given descriptor, skipping its
/// children when it is a directory.
pub fn next_sibling(desc: &Descriptor, i: usize, end: usize) -> (r: usize)
    requires
        i < end,
    ensures
        r == next_sib(*desc, i as int, end as int),
        i < r <= end,
{
    if desc.is_dir() {
        let max_size = end - (i + 1);
        let min_size = if desc.content_size as usize <= max_size {
            desc.content_size as usize
        } else {
            max_size
        };
        i + 1 + min_size
    } else {
        i + 1
    }
}

/// `next_sibling` partitions a well-formed window: the result never leaves
/// the window, and for a directory whose descendant count fits the window,
/// the range `[i + 1, next_sibling)` holds exactly `content_size` entries.
pub proof fn lemma_next_sibling_partitions(d: Descriptor, i: int, end: int)
    requires
        i < end,
    ensures
        i < next_sib(d, i, end) <= end,
        d.content_type == 0 && d.content_size <= end - i - 1 ==> next_sib(d, i, end) == i + 1
            + d.content_size,
        d.content_type != 0 ==> next_sib(d, i, end) == i + 1,
{
}

/// The window `[a, b)` of the directory that `find` returns: the subtree of
/// the first descriptor that matches the path, searched from `i` within the
/// window ending at `end`. After descending into a matched directory the
/// search is confined to its subtree; a matched file with a non-empty
/// remaining path is passed over, so a directory of the same name can still
/// match.
pub open spec fn find_in(dir: Seq<Descriptor>, i: int, end: int, path: Seq<u8>) -> Option<
    (int, int),
>
    decreases end - i,
{
    if i < 0 || i >= end {
        None
    } else {
        let d = dir[i];
        let next = next_sib(d, i, end);
        match path_match(spec_name(d), path) {
            Some(tail) => {
                if tail.len() == 0 {
                    Some((i, next))
                } else if d.content_type == 0 {
                    find_in(dir, i + 1, next, tail)
                } else {
                    find_in(dir, next, end, path)
                }
            },
            None => find_in(dir, next, end, path),
        }
    }
}

/// Traverses the directory with the given path.
///
/// Returns an empty slice for an empty path or a miss; the matched
/// descriptor together with its whole subtree otherwise (one element for a
/// file, at least one for a directory).
pub fn find<'a>(dir: &'a [Descriptor], path: &[u8]) -> (r: &'a [Descriptor])
    ensures
        path@.len() == 0 ==> r@.len() == 0,
        path@.len() > 0 && find_in(dir@, 0, dir@.len() as int, path@) is None ==> r@.len() == 0,
        path@.len() > 0 ==> (find_in(dir@, 0, dir@.len() as int, path@) matches Some(t) ==> r@
            == dir@.subrange(t.0, t.1)),
{
    if path.len() == 0 {
        return &dir[0..0];
    }
    let mut i: usize = 0;
    let mut end: usize = dir.len();
    let mut p: &[u8] = path;
    while i < end
        invariant
            path@.len() > 0,
            i <= end <= dir@.len(),
            p@.len() > 0,
            find_in(dir@, 0, dir@.len() as int, path@) == find_in(dir@, i as int, end as int, p@),
        decreases end - i,
    {
        let desc = &dir[i];
        let next_i = next_sibling(desc, i, end);
        match name_eq(desc, p) {
            Some(tail) => {
                if tail.len() == 0 {
                    return &dir[i..next_i];
                }
                if desc.is_dir() {
                    p = tail;
                    i = i + 1;
                    end = next_i;
                } else {
                    i = next_i;
                }
            },
            None => {
                i = next_i;
            },
        }
    }
    &dir[0..0]
}

/// A hit of `find_in` is a non-empty window inside the searched one.
pub proof fn lemma_find_in_bounds(dir: Seq<Descriptor>, i: int, end: int, path: Seq<u8>)
    requires
        0 <= i,
        end <= dir.len(),
    ensures
        find_in(dir, i, end, path) matches Some(t) ==> i <= t.0 && t.0 < t.1 && t.1 <= end,
    decreases end - i,
{
    if 0 <= i < end {
        let d = dir[i];
        let next = next_sib(d, i, end);
        match path_match(spec_name(d), path) {
            Some(tail) => {
                if tail.len() == 0 {
                } else if d.content_type == 0 {
                    lemma_find_in_bounds(dir, i + 1, next, tail);
                } else {
                    lemma_find_in_bounds(dir, next, end, path);
                }
            },
            None => {
                lemma_find_in_bounds(dir, next, end, path);
            },
        }
    }
}

/// Finds the descriptor at the given path.
pub fn find_desc<'a>(dir: &'a [Descriptor], path: &[u8]) -> (r: Option<&'a Descriptor>)
    ensures
        path@.len() > 0 ==> (find_in(dir@, 0, dir@.len() as int, path@) matches Some(t) ==> (
        r matches Some(d) && *d == dir@[t.0])),
        path@.len() == 0 || find_in(dir@, 0, dir@.len() as int, path@) is None ==> r is None,
{
    proof {
        lemma_find_in_bounds(dir@, 0, dir@.len() as int, path@);
    }
    let f = find(dir, path);
    if f.len() == 0 {
        None
    } else {
        Some(&f[0])
    }
}

/// Finds the children of the directory at the given path: `None` on a miss,
/// the (possibly empty) subtree slice after the matched descriptor on a hit.
pub fn find_dir<'a>(dir: &'a [Descriptor], path: &[u8]) -> (r: Option<&'a [Descriptor]>)
    ensures
        path@.len() > 0 ==> (find_in(dir@, 0, dir@.len() as int, path@) matches Some(t) ==> (
        r matches Some(s) && s@ == dir@.subrange(t.0 + 1, t.1))),
        path@.len() == 0 || find_in(dir@, 0, dir@.len() as int, path@) is None ==> r is None,
{
    proof {
        lemma_find_in_bounds(dir@, 0, dir@.len() as int, path@);
    }
    let f = find(dir, path);
    if f.len() == 0 {
        None
    } else {
        let s = &f[1..f.len()];
        proof {
            if path@.len() > 0 && find_in(dir@, 0, dir@.len() as int, path@) is Some {
                let t = find_in(dir@, 0, dir@.len() as int, path@)->Some_0;
                assert(s@ =~= dir@.subrange(t.0 + 1, t.1));
            }
        }
        Some(s)
    }
}

/// The descriptor that `find_encrypted` returns: the search of `find_in`
/// carried out over an encrypted window, decrypting one descriptor at a
/// time. `nonce` is the counter for the descriptor at `i`; skipping a
/// subtree advances it by four counters per descriptor, descending past a
/// matched directory advances it by four.
pub open spec fn find_enc_in(
    dir: Seq<Descriptor>,
    i: int,
    end: int,
    path: Seq<u8>,
    nonce: Block,
    key: Key,
) -> Option<Descriptor>
    decreases end - i,
{
    if i < 0 || i >= end {
        None
    } else {
        let d = crypt_desc_spec(dir[i], nonce, key);
        let next = next_sib(d, i, end);
        match path_match(spec_name(d), path) {
            Some(tail) => {
                if tail.len() == 0 {
                    Some(d)
                } else if d.content_type == 0 {
                    find_enc_in(dir, i + 1, next, tail, counter_spec(nonce, 4), key)
                } else {
                    find_enc_in(
                        dir,
                        next,
                        end,
                        path,
                        counter_spec(nonce, (4 * (next - i)) as u64),
                        key,
                    )
                }
            },
            None => find_enc_in(dir, next, end, path, counter_spec(nonce, (4 * (next - i)) as u64), key),
        }
    }
}

/// Finds a descriptor with the given path in an encrypted directory.
///
/// The directory stays encrypted; one descriptor is decrypted per step,
/// with the counter advanced by four per descriptor passed over.
pub fn find_encrypted(
    encrypted_dir: &[Descriptor],
    path: &[u8],
    nonce: &Block,
    key: &Key,
) -> (r: Option<Descriptor>)
    requires
        encrypted_dir@.len() * 4 <= usize::MAX,
    ensures
        path@.len() == 0 ==> r is None,
        path@.len() > 0 ==> r == find_enc_in(
            encrypted_dir@,
            0,
            encrypted_dir@.len() as int,
            path@,
            *nonce,
            *key,
        ),
{
    if path.len() == 0 {
        return None;
    }
    let mut i: usize = 0;
    let mut end: usize = encrypted_dir.len();
    let mut p: &[u8] = path;
    let mut n: Block = *nonce;
    while i < end
        invariant
            path@.len() > 0,
            i <= end <= encrypted_dir@.len(),
            encrypted_dir@.len() * 4 <= usize::MAX,
            p@.len() > 0,
            find_enc_in(encrypted_dir@, 0, encrypted_dir@.len() as int, path@, *nonce, *key)
                == find_enc_in(encrypted_dir@, i as int, end as int, p@, n, *key),
        decreases end - i,
    {
        let desc = crypt::decrypt_desc(&encrypted_dir[i], &n, key);
        let next_i = next_sibling(&desc, i, end);
        match name_eq(&desc, p) {
            Some(tail) => {
                if tail.len() == 0 {
                    return Some(desc);
                }
                if desc.is_dir() {
                    p = tail;
                    n = crypt::counter(&n, 4);
                    i = i + 1;
                    end = next_i;
                } else {
                    n = crypt::counter(&n, (next_i - i) * 4);
                    i = next_i;
                }
            },
            None => {
                n = crypt::counter(&n, (next_i - i) * 4);
                i = next_i;
            },
        }
    }
    None
}

/// A whole directory encrypted descriptor by descriptor: entry `i` is
/// transformed with counters `4i .. 4i + 4` from the base nonce, as
/// `encrypt_dir_inplace` writes it.
pub open spec fn encrypt_dir_view(dir: Seq<Descriptor>, nonce: Block, key: Key) -> Seq<
    Descriptor,
> {
    Seq::new(dir.len(), |i: int| crypt_desc_spec(dir[i], counter_spec(nonce, (4 * i) as u64), key))
}

/// The search of `find_enc_in` over an encrypted directory window follows the
/// search of `find_in` over the plaintext window step by step.
proof fn lemma_find_enc_in_equiv(
    dir: Seq<Descriptor>,
    i: int,
    end: int,
    path: Seq<u8>,
    nonce: Block,
    key: Key,
)
    requires
        0 <= i <= end <= dir.len(),
        dir.len() * 4 <= u64::MAX,
    ensures
        find_enc_in(
            encrypt_dir_view(dir, nonce, key),
            i,
            end,
            path,
            counter_spec(nonce, (4 * i) as u64),
            key,
        ) == (match find_in(dir, i, end, path) {
            Some(t) => Some(dir[t.0]),
            None => None::<Descriptor>,
        }),
    decreases end - i,
{
    if i < end {
        let enc = encrypt_dir_view(dir, nonce, key);
        let n_i = counter_spec(nonce, (4 * i) as u64);
        crate::crypt::lemma_desc_round_trip(dir[i], n_i, key);
        let d = crypt_desc_spec(enc[i], n_i, key);
        assert(d == dir[i]);
        let next = next_sib(d, i, end);
        match path_match(spec_name(d), path) {
            Some(tail) => {
                if tail.len() == 0 {
                } else if d.content_type == 0 {
                    crate::crypt::lemma_counter_add(nonce, (4 * i) as u64, 4);
                    assert(vstd::wrapping::u64_specs::wrapping_add((4 * i) as u64, 4u64) == (4 * (i
                        + 1)) as u64);
                    lemma_find_enc_in_equiv(dir, i + 1, next, tail, nonce, key);
                } else {
                    crate::crypt::lemma_counter_add(nonce, (4 * i) as u64, (4 * (next - i)) as u64);
                    assert(vstd::wrapping::u64_specs::wrapping_add(
                        (4 * i) as u64,
                        (4 * (next - i)) as u64,
                    ) == (4 * next) as u64);
                    lemma_find_enc_in_equiv(dir, next, end, path, nonce, key);
                }
            },
            None => {
                crate::crypt::lemma_counter_add(nonce, (4 * i) as u64, (4 * (next - i)) as u64);
                assert(vstd::wrapping::u64_specs::wrapping_add(
                    (4 * i) as u64,
                    (4 * (next - i)) as u64,
                ) == (4 * next) as u64);
                lemma_find_enc_in_equiv(dir, next, end, path, nonce, key);
            },
        }
    }
}

/// Searching an encrypted directory finds exactly what searching its
/// plaintext finds: for every directory, path, nonce and key, running
/// `find_encrypted` over the encryption of the directory returns the same
/// descriptor, by value, that `find_desc` locates in the plaintext.
pub proof fn lemma_find_encrypted_equiv(
    dir: Seq<Descriptor>,
    path: Seq<u8>,
    nonce: Block,
    key: Key,
)
    requires
        dir.len() * 4 <= u64::MAX,
    ensures
        find_enc_in(
            encrypt_dir_view(dir, nonce, key),
            0,
            dir.len() as int,
            path,
            nonce,
            key,
        ) == (match find_in(dir, 0, dir.len() as int, path) {
            Some(t) => Some(dir[t.0]),
            None => None::<Descriptor>,
        }),
{
    lemma_find_enc_in_equiv(dir, 0, dir.len() as int, path, nonce, key);
    assert(counter_spec(nonce, 0) =~= nonce);
}

/// Art used to render a directory tree.
#[derive(Copy, Clone, Debug)]
pub struct Art<'a> {
    pub margin_open: &'a str,
    pub margin_closed: &'a str,
    pub dir_entry: &'a str,
    pub dir_last: &'a str,
    pub file_entry: &'a str,
    pub file_last: &'a str,
}

impl Art<'static> {
    /// Plain ASCII branches.
    pub fn ascii() -> (r: Art<'static>)
        ensures
            r.margin_open@ == "   "@,
            r.margin_closed@ == "|  "@,
            r.dir_entry@ == "+- "@,
            r.dir_last@ == "`- "@,
            r.file_entry@ == "|  "@,
            r.file_last@ == "`  "@,
    {
        Art {
            margin_open: "   ",
            margin_closed: "|  ",
            dir_entry: "+- ",
            dir_last: "`- ",
            file_entry: "|  ",
            file_last: "`  ",
        }
    }

    /// Box-drawing branches.
    pub fn unicode() -> (r: Art<'static>)
        ensures
            r.margin_open@ == "   "@,
            r.dir_entry@ == "├─ "@,
            r.dir_last@ == "└─ "@,
    {
        Art {
            margin_open: "   ",
            margin_closed: "│  ",
            dir_entry: "├─ ",
            dir_last: "└─ ",
            file_entry: "│  ",
            file_last: "└  ",
        }
    }
}

/// Relies on core::str::from_utf8: the string view of the bytes where they
/// are valid UTF-8, nothing where they are not.
#[verifier::external_body]
fn utf8_str(bytes: &[u8]) -> (r: Option<&str>) {
    core::str::from_utf8(bytes).ok()
}

/// Writes the margin of one rendered line: one open or closed piece per
/// level, picked by the finished-subtree bits of `margin`.
fn fmt_margin(s: &mut String, margin: u32, depth: u32, art: &Art)
    requires
        depth <= 31,
    ensures
        final(s)@.len() >= old(s)@.len(),
        final(s)@.subrange(0, old(s)@.len() as int) == old(s)@,
{
    let mut i: u32 = 0;
    while i < depth
        invariant
            depth <= 31,
            i <= depth,
            s@.len() >= old(s)@.len(),
            s@.subrange(0, old(s)@.len() as int) == old(s)@,
        decreases depth - i,
    {
        let is_last = margin & (1u32 << i) != 0;
        let piece = if is_last {
            art.margin_open
        } else {
            art.margin_closed
        };
        s.append(piece);
        proof {
            assert(s@.subrange(0, old(s)@.len() as int) =~= old(s)@);
        }
        i = i + 1;
    }
}

/// One sequence extending a second, which extends a third, extends it too.
proof fn lemma_prefix_trans(a: Seq<char>, b: Seq<char>, c: Seq<char>)
    requires
        b.len() >= a.len(),
        b.subrange(0, a.len() as int) == a,
        c.len() >= b.len(),
        c.subrange(0, b.len() as int) == b,
    ensures
        c.subrange(0, a.len() as int) == a,
{
    assert forall|m: int| #![trigger a[m]] 0 <= m < a.len() implies c.subrange(0, a.len() as int)[m]
        == a[m] by {
        assert(b.subrange(0, a.len() as int)[m] == a[m]);
        assert(c.subrange(0, b.len() as int)[m] == b[m]);
    }
    assert(c.subrange(0, a.len() as int) =~= a);
}

/// Renders one directory level and, below every directory descriptor, its
/// subtree, guarded to 31 levels of nesting. Only ever appends to `s`, and
/// at the root first writes the `./` line.
fn fmt_rec(s: &mut String, margin: u32, depth: u32, dir: &[Descriptor], art: &Art)
    ensures
        final(s)@.len() >= old(s)@.len(),
        final(s)@.subrange(0, old(s)@.len() as int) == old(s)@,
        depth == 0 ==> final(s)@.len() >= old(s)@.len() + 3 && final(s)@.subrange(
            old(s)@.len() as int,
            old(s)@.len() as int + 3,
        ) == "./\n"@,
    decreases dir@.len(),
{
    if depth >= 31 {
        return ;
    }
    if depth == 0 {
        s.append("./\n");
        proof {
            reveal_strlit("./\n");
        }
    }
    let ghost s1 = s@;
    let mut was_dir = false;
    let mut i: usize = 0;
    while i < dir.len()
        invariant
            depth <= 30,
            i <= dir@.len(),
            s@.len() >= s1.len(),
            s@.subrange(0, s1.len() as int) == s1,
            s1.len() >= old(s)@.len(),
            s1.subrange(0, old(s)@.len() as int) == old(s)@,
            depth == 0 ==> s1.len() == old(s)@.len() + 3 && s1.subrange(
                old(s)@.len() as int,
                old(s)@.len() as int + 3,
            ) == "./\n"@,
        decreases dir@.len() - i,
    {
        let desc = &dir[i];
        if i != 0 && (desc.is_dir() || was_dir) {
            let ghost p0 = s@;
            fmt_margin(s, margin, depth + 1, art);
            proof {
                lemma_prefix_trans(s1, p0, s@);
            }
            let ghost p1 = s@;
            s.append("\n");
            proof {
                assert(s@.subrange(0, p1.len() as int) =~= p1);
                lemma_prefix_trans(s1, p1, s@);
            }
        }
        was_dir = desc.is_dir();
        let ghost p2 = s@;
        fmt_margin(s, margin, depth, art);
        proof {
            lemma_prefix_trans(s1, p2, s@);
        }
        let next_i = next_sibling(desc, i, dir.len());
        let is_last = dir.len() == next_i;
        let prefix = if is_last && desc.is_dir() {
            art.dir_last
        } else if is_last {
            art.file_last
        } else if desc.is_dir() {
            art.dir_entry
        } else {
            art.file_entry
        };
        let ghost p3 = s@;
        s.append(prefix);
        proof {
            assert(s@.subrange(0, p3.len() as int) =~= p3);
            lemma_prefix_trans(s1, p3, s@);
        }
        let ghost p4 = s@;
        match utf8_str(desc.name()) {
            Some(name) => s.append(name),
            None => s.append("err"),
        }
        proof {
            assert(s@.subrange(0, p4.len() as int) =~= p4);
            lemma_prefix_trans(s1, p4, s@);
        }
        if desc.is_dir() {
            let ghost p5 = s@;
            s.append("/\n");
            proof {
                assert(s@.subrange(0, p5.len() as int) =~= p5);
                lemma_prefix_trans(s1, p5, s@);
            }
            let bit: u32 = if is_last {
                1
            } else {
                0
            };
            let new_margin = margin | (bit << depth);
            let ghost p6 = s@;
            fmt_rec(s, new_margin, depth + 1, &dir[i + 1..next_i], art);
            proof {
                lemma_prefix_trans(s1, p6, s@);
            }
        } else {
            let ghost p7 = s@;
            s.append("\n");
            proof {
                assert(s@.subrange(0, p7.len() as int) =~= p7);
                lemma_prefix_trans(s1, p7, s@);
            }
        }
        i = next_i;
    }
    proof {
        lemma_prefix_trans(old(s)@, s1, s@);
        if depth == 0 {
            assert(s@.subrange(old(s)@.len() as int, old(s)@.len() as int + 3) =~= s1.subrange(
                old(s)@.len() as int,
                old(s)@.len() as int + 3,
            ));
        }
    }
}

/// Formats the directory structure to a string: the root as `./`, each
/// descriptor on a line of its own, directories recursively. A helper past
/// the engine's core: only the shape of its output is promised, a rendering
/// that starts with the root line.
pub fn to_string(dir: &[Descriptor], art: &Art) -> (r: String)
    ensures
        r@.len() >= 3,
        r@.subrange(0, 3) == "./\n"@,
{
    let mut s = String::new();
    proof {
        reveal_strlit("./\n");
    }
    fmt_rec(&mut s, 0, 0, dir, art);
    proof {
        assert(s@.subrange(0, 3) =~= "./\n"@);
    }
    s
}

/// A descriptor's descendant count moved by `inc`, modulo 2^32.
pub open spec fn add_size_spec(x: u32, inc: i32) -> u32 {
    ((x + inc) % 0x1_0000_0000) as u32
}

/// Adds a signed increment to a descendant count, wrapping modulo 2^32.
fn add_content_size(x: u32, inc: i32) -> (r: u32)
    ensures
        r == add_size_spec(x, inc),
{
    if inc >= 0 {
        let r = x.wrapping_add(inc as u32);
        proof {
            if x + inc > u32::MAX {
                vstd::arithmetic::div_mod::lemma_fundamental_div_mod_converse(
                    x + inc,
                    0x1_0000_0000,
                    1,
                    x + inc - 0x1_0000_0000,
                );
            } else {
                vstd::arithmetic::div_mod::lemma_fundamental_div_mod_converse(
                    x + inc,
                    0x1_0000_0000,
                    0,
                    x + inc,
                );
            }
        }
        r
    } else {
        let m = (-(inc as i64)) as u32;
        let r = x.wrapping_sub(m);
        proof {
            if x - m < 0 {
                vstd::arithmetic::div_mod::lemma_fundamental_div_mod_converse(
                    x + inc,
                    0x1_0000_0000,
                    -1,
                    x + inc + 0x1_0000_0000,
                );
            } else {
                vstd::arithmetic::div_mod::lemma_fundamental_div_mod_converse(
                    x + inc,
                    0x1_0000_0000,
                    0,
                    x + inc,
                );
            }
        }
        r
    }
}

/// The descriptor `d` with its descendant count moved by `inc`.
pub open spec fn desc_bumped(d: Descriptor, inc: i32) -> Descriptor {
    Descriptor { content_size: add_size_spec(d.content_size, inc), ..d }
}

/// What one walk of `dir_inc` leaves behind, searched from `i` in the window
/// ending at `end`: the directory with every matched ancestor's descendant
/// count moved by `inc`, the index where descriptors for the remaining path
/// would be inserted (or the index of an exact match, or of a file standing
/// where a directory is needed), and the remaining path.
pub open spec fn dir_inc_spec(
    dir: Seq<Descriptor>,
    i: int,
    end: int,
    path: Seq<u8>,
    inc: i32,
) -> (Seq<Descriptor>, int, Seq<u8>)
    decreases end - i,
{
    if i < 0 || i >= end {
        (dir, i, path)
    } else {
        let d = dir[i];
        let next = next_sib(d, i, end);
        match path_match(spec_name(d), path) {
            Some(tail) => {
                if tail.len() == 0 {
                    (dir, i, tail)
                } else if d.content_type == 0 {
                    dir_inc_spec(dir.update(i, desc_bumped(d, inc)), i + 1, next, tail, inc)
                } else {
                    (dir, i, path)
                }
            },
            None => dir_inc_spec(dir, next, end, path, inc),
        }
    }
}

/// A walk of `dir_inc` keeps the directory's length, and its index stays in
/// the window.
pub proof fn lemma_dir_inc_bounds(dir: Seq<Descriptor>, i: int, end: int, path: Seq<u8>, inc: i32)
    requires
        0 <= i <= end <= dir.len(),
    ensures
        dir_inc_spec(dir, i, end, path, inc).0.len() == dir.len(),
        i <= dir_inc_spec(dir, i, end, path, inc).1 <= end,
    decreases end - i,
{
    if 0 <= i < end {
        let d = dir[i];
        let next = next_sib(d, i, end);
        match path_match(spec_name(d), path) {
            Some(tail) => {
                if tail.len() == 0 {
                } else if d.content_type == 0 {
                    lemma_dir_inc_bounds(dir.update(i, desc_bumped(d, inc)), i + 1, next, tail, inc);
                }
            },
            None => {
                lemma_dir_inc_bounds(dir, next, end, path, inc);
            },
        }
    }
}

/// A walk with a zero increment changes nothing.
pub proof fn lemma_dir_inc_zero(dir: Seq<Descriptor>, i: int, end: int, path: Seq<u8>)
    requires
        0 <= i <= end <= dir.len(),
    ensures
        dir_inc_spec(dir, i, end, path, 0).0 == dir,
    decreases end - i,
{
    if 0 <= i < end {
        let d = dir[i];
        let next = next_sib(d, i, end);
        match path_match(spec_name(d), path) {
            Some(tail) => {
                if tail.len() == 0 {
                } else if d.content_type == 0 {
                    vstd::arithmetic::div_mod::lemma_fundamental_div_mod_converse(
                        d.content_size as int,
                        0x1_0000_0000,
                        0,
                        d.content_size as int,
                    );
                    assert(desc_bumped(d, 0) == d);
                    assert(dir.update(i, d) =~= dir);
                    lemma_dir_inc_zero(dir, i + 1, next, tail);
                }
            },
            None => {
                lemma_dir_inc_zero(dir, next, end, path);
            },
        }
    }
}

/// Walks the directory tree along the path, moving the descendant count of
/// every matched directory descriptor on the way by `inc`. Returns the index
/// where descriptors for the remaining path would be inserted; `path` is
/// left holding that remaining path.
pub fn dir_inc(dir: &mut Vec<Descriptor>, path: &mut &[u8], inc: i32) -> (r: usize)
    ensures
        final(dir)@ == dir_inc_spec(
            old(dir)@,
            0,
            old(dir)@.len() as int,
            old(path)@,
            inc,
        ).0,
        r == dir_inc_spec(old(dir)@, 0, old(dir)@.len() as int, old(path)@, inc).1,
        final(path)@ == dir_inc_spec(old(dir)@, 0, old(dir)@.len() as int, old(path)@, inc).2,
        r <= old(dir)@.len(),
{
    proof {
        lemma_dir_inc_bounds(old(dir)@, 0, old(dir)@.len() as int, old(path)@, inc);
    }
    let ghost target = dir_inc_spec(old(dir)@, 0, old(dir)@.len() as int, old(path)@, inc);
    let mut i: usize = 0;
    let mut end: usize = dir.len();
    while i < end
        invariant
            i <= end <= dir@.len(),
            dir@.len() == old(dir)@.len(),
            target == dir_inc_spec(old(dir)@, 0, old(dir)@.len() as int, old(path)@, inc),
            target == dir_inc_spec(dir@, i as int, end as int, (*path)@, inc),
        decreases end - i,
    {
        let d = dir[i];
        let next_i = next_sibling(&d, i, end);
        let cur: &[u8] = *path;
        match name_eq(&d, cur) {
            Some(tail) => {
                if tail.len() == 0 {
                    *path = tail;
                    return i;
                }
                if d.content_type == 0 {
                    let mut d2 = d;
                    d2.content_size = add_content_size(d.content_size, inc);
                    proof {
                        assert(d2 == desc_bumped(d, inc));
                    }
                    dir[i] = d2;
                    *path = tail;
                    i = i + 1;
                    end = next_i;
                } else {
                    return i;
                }
            },
            None => {
                i = next_i;
            },
        }
    }
    i
}

/// The number of components of a remaining path, counted like the insertion
/// pass of `create`: one per separator plus one, except that a trailing
/// separator ends the count early.
pub open spec fn flenck_rec(path: Seq<u8>, i: int, components: int) -> int
    decreases path.len() - i,
{
    if i < 0 || i >= path.len() {
        components + 1
    } else if is_sep(path[i]) {
        if i + 1 == path.len() {
            components
        } else {
            flenck_rec(path, i + 1, components + 1)
        }
    } else {
        flenck_rec(path, i + 1, components)
    }
}

/// How many descriptors `create` must insert for a remaining path: none when
/// nothing remains.
pub open spec fn missing_spec(tail: Seq<u8>) -> int {
    if tail.len() == 0 {
        0
    } else {
        flenck_rec(tail, 0, 0)
    }
}

/// The component count is bounded by the path's length.
pub proof fn lemma_flenck_bound(path: Seq<u8>, i: int, components: int)
    requires
        0 <= i <= path.len(),
        components >= 0,
    ensures
        components <= flenck_rec(path, i, components) <= components + (path.len() - i) + 1,
    decreases path.len() - i,
{
    if i < path.len() {
        if is_sep(path[i]) {
            if i + 1 != path.len() {
                lemma_flenck_bound(path, i + 1, components + 1);
            }
        } else {
            lemma_flenck_bound(path, i + 1, components);
        }
    }
}

/// Counts the components of the remaining path.
pub(crate) fn flenck(path: &[u8]) -> (r: usize)
    requires
        path@.len() < usize::MAX,
    ensures
        r == flenck_rec(path@, 0, 0),
{
    proof {
        lemma_flenck_bound(path@, 0, 0);
    }
    let mut components: usize = 0;
    let mut i: usize = 0;
    while i < path.len()
        invariant
            path@.len() < usize::MAX,
            i <= path@.len(),
            components <= i,
            flenck_rec(path@, 0, 0) == flenck_rec(path@, i as int, components as int),
        decreases path@.len() - i,
    {
        let c = path[i];
        if c == 47 || c == 92 {
            if i + 1 == path.len() {
                return components;
            }
            components = components + 1;
        }
        i = i + 1;
    }
    components + 1
}

/// The index where the next separator of a remaining path stands, or the
/// path's end: the first inserted component runs up to there.
pub open spec fn comp_end(t: Seq<u8>, j: int) -> int
    decreases t.len() - j,
{
    if j < 0 || j >= t.len() {
        t.len() as int
    } else if is_sep(t[j]) {
        j
    } else {
        comp_end(t, j + 1)
    }
}

/// The first component of a remaining path.
pub open spec fn comp_of(t: Seq<u8>) -> Seq<u8> {
    t.take(comp_end(t, 0))
}

/// A remaining path without its first component and separator.
pub open spec fn rest_of(t: Seq<u8>) -> Seq<u8> {
    if comp_end(t, 0) == t.len() {
        Seq::empty()
    } else {
        t.skip(comp_end(t, 0) + 1)
    }
}

/// A fresh directory descriptor as `create` inserts it: named after a path
/// component, with the given descendant count and a zero section.
pub open spec fn mk_dir_desc(name: Seq<u8>, n: u32) -> Descriptor {
    Descriptor {
        content_type: 0u32,
        content_size: n,
        section: crate::spec_section_default(),
        name_buf: crate::array32(spec_set_name_buf(spec_desc_default().name_buf@, name)),
    }
}

/// The run of `k` directory descriptors that `create` inserts for a
/// remaining path: each is named after the next component, and the `j`-th
/// counts the `k - j - 1` that follow it as its descendants.
pub open spec fn chain(tail: Seq<u8>, k: int) -> Seq<Descriptor>
    decreases k,
{
    if k <= 0 {
        Seq::empty()
    } else {
        seq![mk_dir_desc(comp_of(tail), (k - 1) as u32)] + chain(rest_of(tail), k - 1)
    }
}

/// The inserted run has one descriptor per missing component.
pub proof fn lemma_chain_len(tail: Seq<u8>, k: int)
    requires
        k >= 0,
    ensures
        chain(tail, k).len() == k,
    decreases k,
{
    if k > 0 {
        lemma_chain_len(rest_of(tail), k - 1);
    }
}

/// Whether `create` is defined for this directory and path: the path is not
/// empty, and what remains of it after the walk is either nothing or at
/// least one component (a lone component ended by a separator counts none,
/// and leaves `create` with no descriptor to return).
pub open spec fn spec_create_ok(dir: Seq<Descriptor>, path: Seq<u8>) -> bool {
    let t = dir_inc_spec(dir, 0, dir.len() as int, path, 0);
    &&& path.len() > 0
    &&& (t.2.len() > 0 ==> flenck_rec(t.2, 0, 0) >= 1)
}

/// Without a trailing separator, the insertion pass counts at least one
/// component.
proof fn lemma_flenck_no_trailing_sep(p: Seq<u8>, i: int, c: int)
    requires
        p.len() > 0,
        !is_sep(p[p.len() - 1]),
        0 <= i <= p.len(),
        c >= 0,
    ensures
        flenck_rec(p, i, c) >= c + 1,
    decreases p.len() - i,
{
    if i < p.len() {
        if is_sep(p[i]) {
            lemma_flenck_no_trailing_sep(p, i + 1, c + 1);
        } else {
            lemma_flenck_no_trailing_sep(p, i + 1, c);
        }
    }
}

/// The walk's remaining path, where one remains, ends in the byte the whole
/// path ends in.
proof fn lemma_dir_inc_tail_last(dir: Seq<Descriptor>, i: int, end: int, path: Seq<u8>, inc: i32)
    requires
        0 <= i <= end <= dir.len(),
        path.len() > 0,
    ensures
        ({
            let t = dir_inc_spec(dir, i, end, path, inc).2;
            t.len() > 0 ==> t[t.len() - 1] == path[path.len() - 1]
        }),
    decreases end - i,
{
    if 0 <= i < end {
        let d = dir[i];
        let next = next_sib(d, i, end);
        match path_match(spec_name(d), path) {
            Some(tail) => {
                if tail.len() == 0 {
                } else if d.content_type == 0 {
                    assert(tail[tail.len() - 1] == path[path.len() - 1]);
                    lemma_dir_inc_tail_last(dir.update(i, desc_bumped(d, inc)), i + 1, next, tail, inc);
                }
            },
            None => {
                lemma_dir_inc_tail_last(dir, next, end, path, inc);
            },
        }
    }
}

/// A non-empty path without a trailing separator is one `create` accepts,
/// whatever the directory holds.
pub proof fn lemma_simple_path_create_ok(dir: Seq<Descriptor>, path: Seq<u8>)
    requires
        path.len() > 0,
        !is_sep(path[path.len() - 1]),
    ensures
        spec_create_ok(dir, path),
{
    let t = dir_inc_spec(dir, 0, dir.len() as int, path, 0).2;
    lemma_dir_inc_tail_last(dir, 0, dir.len() as int, path, 0);
    if t.len() > 0 {
        lemma_flenck_no_trailing_sep(t, 0, 0);
    }
}

/// An exact match ends the walk strictly inside the directory.
pub proof fn lemma_dir_inc_exact_in_bounds(
    dir: Seq<Descriptor>,
    i: int,
    end: int,
    path: Seq<u8>,
    inc: i32,
)
    requires
        0 <= i <= end <= dir.len(),
        path.len() > 0,
    ensures
        dir_inc_spec(dir, i, end, path, inc).2.len() == 0 ==> dir_inc_spec(
            dir,
            i,
            end,
            path,
            inc,
        ).1 < end,
    decreases end - i,
{
    if 0 <= i < end {
        let d = dir[i];
        let next = next_sib(d, i, end);
        match path_match(spec_name(d), path) {
            Some(tail) => {
                if tail.len() == 0 {
                } else if d.content_type == 0 {
                    lemma_dir_inc_exact_in_bounds(
                        dir.update(i, desc_bumped(d, inc)),
                        i + 1,
                        next,
                        tail,
                        inc,
                    );
                }
            },
            None => {
                lemma_dir_inc_exact_in_bounds(dir, next, end, path, inc);
            },
        }
    }
}

/// The remaining path of a walk is a suffix of the path it started with.
pub proof fn lemma_dir_inc_tail_len(dir: Seq<Descriptor>, i: int, end: int, path: Seq<u8>, inc: i32)
    requires
        0 <= i <= end <= dir.len(),
    ensures
        dir_inc_spec(dir, i, end, path, inc).2.len() <= path.len(),
    decreases end - i,
{
    if 0 <= i < end {
        let d = dir[i];
        let next = next_sib(d, i, end);
        match path_match(spec_name(d), path) {
            Some(tail) => {
                if tail.len() == 0 {
                } else if d.content_type == 0 {
                    lemma_dir_inc_tail_len(dir.update(i, desc_bumped(d, inc)), i + 1, next, tail, inc);
                }
            },
            None => {
                lemma_dir_inc_tail_len(dir, next, end, path, inc);
            },
        }
    }
}

/// What `create` produces: the directory with every ancestor's count bumped
/// by the number of missing components and the chain of fresh directory
/// descriptors inserted at the walk's index, paired with the index of the
/// descriptor it returns.
pub open spec fn create_spec(dir: Seq<Descriptor>, path: Seq<u8>) -> (Seq<Descriptor>, int) {
    let t0 = dir_inc_spec(dir, 0, dir.len() as int, path, 0);
    let k = missing_spec(t0.2);
    if k == 0 {
        (dir, t0.1)
    } else {
        let d2 = dir_inc_spec(dir, 0, dir.len() as int, path, k as i32).0;
        (d2.subrange(0, t0.1) + chain(t0.2, k) + d2.subrange(t0.1, d2.len() as int), t0.1 + k - 1)
    }
}

/// Creates a new descriptor at the appropriate place given the path.
///
/// Non-existing parent directories are created as needed; if a file stands
/// where a directory is expected, a sibling directory of the same name is
/// created. Returns the descriptor at the path, for the caller to fill in.
pub fn create<'a>(dir: &'a mut Vec<Descriptor>, path: &[u8]) -> (r: &'a mut Descriptor)
    requires
        spec_create_ok(old(dir)@, path@),
        old(dir)@.len() + path@.len() + 1 <= usize::MAX,
        path@.len() + 1 <= i32::MAX,
    ensures
        0 <= create_spec(old(dir)@, path@).1 < create_spec(old(dir)@, path@).0.len(),
        *r == create_spec(old(dir)@, path@).0[create_spec(old(dir)@, path@).1],
        final(dir)@ == create_spec(old(dir)@, path@).0.update(
            create_spec(old(dir)@, path@).1,
            *final(r),
        ),
{
    let ghost dir0 = dir@;
    let ghost len0 = dir@.len() as int;
    proof {
        lemma_dir_inc_zero(dir0, 0, len0, path@);
        lemma_dir_inc_bounds(dir0, 0, len0, path@, 0);
        lemma_dir_inc_exact_in_bounds(dir0, 0, len0, path@, 0);
        lemma_dir_inc_tail_len(dir0, 0, len0, path@, 0);
    }
    let mut tail: &[u8] = path;
    let i = dir_inc(dir, &mut tail, 0);
    let k: usize = if tail.len() == 0 {
        0
    } else {
        proof {
            lemma_flenck_bound(tail@, 0, 0);
        }
        flenck(tail)
    };
    if k == 0 {
        return &mut dir[i];
    }
    proof {
        lemma_dir_inc_bounds(dir0, 0, len0, path@, k as i32);
        lemma_chain_len(tail@, k as int);
    }
    let ghost d2 = dir_inc_spec(dir0, 0, len0, path@, k as i32).0;
    let mut tail2: &[u8] = path;
    let _check = dir_inc(dir, &mut tail2, k as i32);
    let old_len = dir.len();
    // Make room for the new descriptors at the end.
    let mut j: usize = 0;
    while j < k
        invariant
            j <= k,
            dir@.len() == old_len + j,
            old_len == d2.len(),
            old_len + k <= usize::MAX,
            dir@.subrange(0, old_len as int) == d2,
        decreases k - j,
    {
        dir.push(Descriptor::default());
        proof {
            assert(dir@.subrange(0, old_len as int) =~= d2);
        }
        j = j + 1;
    }
    // Shift the descriptors at and after the insertion index right by `k`.
    let mut t = old_len;
    while t > i
        invariant
            i <= t <= old_len,
            old_len == d2.len(),
            old_len + k <= usize::MAX,
            k >= 1,
            dir@.len() == old_len + k,
            forall|m: int| 0 <= m < t ==> dir@[m] == d2[m],
            forall|m: int| t <= m < old_len ==> dir@[m + k] == d2[m],
        decreases t,
    {
        t = t - 1;
        let v = dir[t];
        dir[t + k] = v;
    }
    // Fill the gap with one directory descriptor per missing component.
    let ghost chain0 = chain(tail@, k as int);
    let mut rem: &[u8] = tail;
    let mut j: usize = 0;
    while j < k
        invariant
            j <= k,
            old_len + k <= usize::MAX,
            old_len == d2.len(),
            k <= u32::MAX,
            i <= old_len,
            dir@.len() == old_len + k,
            chain0 == chain(tail@, k as int),
            chain0.len() == k,
            forall|m: int| 0 <= m < i ==> dir@[m] == d2[m],
            forall|m: int| i <= m < old_len ==> dir@[m + k] == d2[m],
            forall|m: int| 0 <= m < j ==> dir@[i + m] == chain0[m],
            chain0.skip(j as int) == chain(rem@, k - j),
        decreases k - j,
    {
        let mut c: usize = 0;
        while c < rem.len() && rem[c] != 47 && rem[c] != 92
            invariant
                c <= rem@.len(),
                comp_end(rem@, 0) == comp_end(rem@, c as int),
                forall|m: int| 0 <= m < c ==> !is_sep(rem@[m]),
            decreases rem@.len() - c,
        {
            c = c + 1;
        }
        proof {
            assert(comp_end(rem@, 0) == c);
        }
        let dir_len = (k - j - 1) as u32;
        let d = Descriptor::dir(&rem[0..c], dir_len);
        proof {
            let mk = mk_dir_desc(comp_of(rem@), dir_len);
            assert(rem@.subrange(0, c as int) =~= comp_of(rem@));
            assert(d.name_buf@ == mk.name_buf@) by {
                crate::lemma_array32_view(spec_set_name_buf(spec_desc_default().name_buf@, comp_of(rem@)));
            }
            assert(d.name_buf =~= mk.name_buf);
            assert(d == mk);
            // The descriptor written here is entry `j` of the chain.
            assert(chain(rem@, k - j) == seq![mk_dir_desc(comp_of(rem@), (k - j - 1) as u32)]
                + chain(rest_of(rem@), k - j - 1));
            assert(chain0[j as int] == chain0.skip(j as int)[0]);
        }
        dir[i + j] = d;
        let ghost rem_pre = rem@;
        rem = if c == rem.len() {
            &rem[c..c]
        } else {
            &rem[c + 1..rem.len()]
        };
        proof {
            assert(rem@ =~= rest_of(rem_pre));
            assert(chain0.skip(j + 1) =~= chain(rem_pre, k - j).skip(1));
            assert(chain(rem_pre, k - j).skip(1) =~= chain(rest_of(rem_pre), k - j - 1));
        }
        j = j + 1;
    }
    proof {
        assert(dir@ =~= d2.subrange(0, i as int) + chain0 + d2.subrange(i as int, d2.len() as int));
        assert(create_spec(dir0, path@).0 == d2.subrange(0, i as int) + chain0 + d2.subrange(
            i as int,
            d2.len() as int,
        ));
    }
    &mut dir[i + k - 1]
}

/// Whatever the directory already held: when `create` must insert — the
/// walk left a well-formed remainder of the path — the descriptor it hands
/// back is a fresh, empty directory named after that remainder's last
/// component. (On an empty directory the remainder is the whole path.)
pub proof fn lemma_create_names_last_component(dir: Seq<Descriptor>, path: Seq<u8>)
    requires
        ({
            let tail = dir_inc_spec(dir, 0, dir.len() as int, path, 0).2;
            &&& tail.len() > 0
            &&& wf_path(tail)
            &&& num_comps(tail) <= u32::MAX
        }),
    ensures
        ({
            let d1 = create_spec(dir, path).0;
            let idx = create_spec(dir, path).1;
            let tail = dir_inc_spec(dir, 0, dir.len() as int, path, 0).2;
            &&& 0 <= idx < d1.len()
            &&& d1[idx] == mk_dir_desc(last_comp(tail), 0u32)
            &&& spec_name(d1[idx]) == last_comp(tail)
            &&& d1[idx].content_type == 0
            &&& d1[idx].content_size == 0
        }),
{
    let tail = dir_inc_spec(dir, 0, dir.len() as int, path, 0).2;
    let i = dir_inc_spec(dir, 0, dir.len() as int, path, 0).1;
    let k = missing_spec(tail);
    lemma_flenck_num_comps(tail);
    assert(k == num_comps(tail));
    lemma_dir_inc_bounds(dir, 0, dir.len() as int, path, 0);
    lemma_dir_inc_bounds(dir, 0, dir.len() as int, path, k as i32);
    let d2 = dir_inc_spec(dir, 0, dir.len() as int, path, k as i32).0;
    lemma_chain_len(tail, k);
    lemma_chain_index_last(tail, k);
    lemma_mk_name(last_comp(tail), 0u32);
    let d1 = create_spec(dir, path).0;
    assert(d1[i + k - 1] == chain(tail, k)[k - 1]) by {
        assert(d1 == d2.subrange(0, i) + chain(tail, k) + d2.subrange(i, d2.len() as int));
        assert(d2.subrange(0, i).len() == i);
    }
}

/// What `remove` leaves behind when the walk finds a descriptor: every
/// ancestor's descendant count drops by one and the descriptor's slot is
/// erased, so the children of a removed directory move to its parent.
pub open spec fn remove_spec(dir: Seq<Descriptor>, path: Seq<u8>) -> Seq<Descriptor> {
    if !remove_finds(dir, path) {
        dir
    } else {
        dir_inc_spec(dir, 0, dir.len() as int, path, (-1) as i32).0.remove(
            dir_inc_spec(dir, 0, dir.len() as int, path, 0).1,
        )
    }
}

/// Whether `remove` finds a descriptor to remove at this path: the dry walk
/// must consume the whole path — an exact match — and end on a descriptor.
/// A walk that stops early, on a missing component or on a file standing
/// where a directory is needed, finds nothing.
pub open spec fn remove_finds(dir: Seq<Descriptor>, path: Seq<u8>) -> bool {
    &&& dir_inc_spec(dir, 0, dir.len() as int, path, 0).1 < dir.len()
    &&& dir_inc_spec(dir, 0, dir.len() as int, path, 0).2.len() == 0
}

/// Removes the descriptor at the given path.
///
/// Returns `false`, leaving the directory and `deleted` untouched, if no
/// descriptor stands at the path. Otherwise removes the single slot (the
/// children of a removed directory become children of its parent), copies
/// the removed descriptor into `deleted` when one is given, and returns
/// `true`.
pub fn remove(dir: &mut Vec<Descriptor>, path: &[u8], deleted: Option<&mut Descriptor>) -> (r:
    bool)
    ensures
        r == remove_finds(old(dir)@, path@),
        final(dir)@ == remove_spec(old(dir)@, path@),
        deleted matches Some(d) ==> *final(d) == (if remove_finds(old(dir)@, path@) {
            dir_inc_spec(old(dir)@, 0, old(dir)@.len() as int, path@, (-1) as i32).0[dir_inc_spec(
                old(dir)@,
                0,
                old(dir)@.len() as int,
                path@,
                0,
            ).1]
        } else {
            *d
        }),
{
    let ghost dir0 = dir@;
    let ghost len0 = dir@.len() as int;
    proof {
        lemma_dir_inc_zero(dir0, 0, len0, path@);
        lemma_dir_inc_bounds(dir0, 0, len0, path@, 0);
        lemma_dir_inc_bounds(dir0, 0, len0, path@, (-1) as i32);
    }
    let mut tail: &[u8] = path;
    let i = dir_inc(dir, &mut tail, 0);
    if i >= dir.len() || tail.len() > 0 {
        return false;
    }
    let mut tail2: &[u8] = path;
    let _check = dir_inc(dir, &mut tail2, -1);
    match deleted {
        Some(d) => {
            *d = dir[i];
        },
        None => {},
    }
    dir.remove(i);
    true
}

/// The directory with every directory descriptor's section pointed at its
/// own subtree: offset right after itself, size equal to its descendant
/// count.
pub open spec fn update_addr_spec(dir: Seq<Descriptor>) -> Seq<Descriptor> {
    Seq::new(
        dir.len(),
        |i: int|
            if dir[i].content_type == 0 {
                Descriptor {
                    section: Section {
                        offset: (i + 1) as u32,
                        size: dir[i].content_size,
                        nonce: dir[i].section.nonce,
                    },
                    ..dir[i]
                }
            } else {
                dir[i]
            },
    )
}

/// A path whose every component is non-empty and at most 31 bytes, with no
/// trailing separator: the paths on which creating and then removing are
/// exact inverses.
pub open spec fn wf_path(p: Seq<u8>) -> bool
    decreases p.len(),
{
    let ce = comp_end(p, 0);
    &&& 1 <= ce <= 31
    &&& (ce < p.len() ==> rest_of(p).len() > 0 && wf_path(rest_of(p)))
}

/// How many components a well-formed path has.
pub open spec fn num_comps(p: Seq<u8>) -> int
    decreases p.len(),
    via num_comps_decreases
{
    if comp_end(p, 0) >= p.len() {
        1
    } else if rest_of(p).len() == 0 {
        1
    } else {
        1 + num_comps(rest_of(p))
    }
}

#[via_fn]
proof fn num_comps_decreases(p: Seq<u8>) {
    lemma_comp_end_sep(p, 0);
}

/// Component `j` of a path.
pub open spec fn comp_at(p: Seq<u8>, j: int) -> Seq<u8>
    decreases j,
{
    if j <= 0 {
        comp_of(p)
    } else {
        comp_at(rest_of(p), j - 1)
    }
}

/// The last component of a path.
pub open spec fn last_comp(p: Seq<u8>) -> Seq<u8> {
    comp_at(p, num_comps(p) - 1)
}

/// A fresh directory descriptor carries exactly the name it was made with,
/// as long as that name fits the name buffer.
proof fn lemma_mk_name(nm: Seq<u8>, n: u32)
    requires
        nm.len() <= 31,
    ensures
        spec_name(mk_dir_desc(nm, n)) == nm,
        mk_dir_desc(nm, n).content_type == 0,
        mk_dir_desc(nm, n).content_size == n,
{
    let buf = spec_set_name_buf(spec_desc_default().name_buf@, nm);
    crate::lemma_array32_view(buf);
    let d = mk_dir_desc(nm, n);
    assert(d.name_buf@ == buf);
    assert(d.name_buf[31] == buf[31]);
    assert(crate::spec_name_len(d) == nm.len());
    assert(spec_name(d) =~= nm);
}

/// The first component of a well-formed path matches the path, leaving the
/// rest.
proof fn lemma_comp_match(p: Seq<u8>)
    requires
        wf_path(p),
    ensures
        path_match(comp_of(p), p) == Some(rest_of(p)),
        comp_of(p).len() >= 1,
        comp_end(p, 0) < p.len() ==> is_sep(p[comp_end(p, 0)]),
        comp_end(p, 0) <= p.len(),
{
    lemma_comp_end_sep(p, 0);
    let ce = comp_end(p, 0);
    assert(p.take(ce).take(ce) =~= p.take(ce));
    if ce == p.len() {
        assert(path_match(comp_of(p), p) == Some(Seq::<u8>::empty()));
        assert(rest_of(p) =~= Seq::<u8>::empty());
    } else {
        assert(path_match(comp_of(p), p) == Some(p.skip(ce + 1)));
    }
}

/// `comp_end` points at the first separator at or after `j`, or at the
/// path's end.
proof fn lemma_comp_end_sep(p: Seq<u8>, j: int)
    requires
        0 <= j <= p.len(),
    ensures
        j <= comp_end(p, j) <= p.len(),
        comp_end(p, j) < p.len() ==> is_sep(p[comp_end(p, j)]),
        forall|m: int| j <= m < comp_end(p, j) ==> !is_sep(p[m]),
    decreases p.len() - j,
{
    if j < p.len() && !is_sep(p[j]) {
        lemma_comp_end_sep(p, j + 1);
    }
}

/// The tail of a chain of fresh directories is the chain of the rest of the
/// path.
proof fn lemma_chain_skip(p: Seq<u8>, k: int)
    requires
        k >= 1,
    ensures
        chain(p, k).len() == k,
        chain(p, k)[0] == mk_dir_desc(comp_of(p), (k - 1) as u32),
        chain(p, k).skip(1) == chain(rest_of(p), k - 1),
    decreases k,
{
    lemma_chain_len(p, k);
    lemma_chain_len(rest_of(p), k - 1);
    assert(chain(p, k).skip(1) =~= chain(rest_of(p), k - 1));
}

/// Entry `j` of a chain is a fresh directory named after component `j`,
/// counting the rest of the chain as its descendants.
proof fn lemma_chain_index(p: Seq<u8>, k: int, j: int)
    requires
        0 <= j < k,
    ensures
        chain(p, k).len() == k,
        chain(p, k)[j] == mk_dir_desc(comp_at(p, j), (k - j - 1) as u32),
    decreases j,
{
    lemma_chain_len(p, k);
    lemma_chain_skip(p, k);
    if j > 0 {
        lemma_chain_index(rest_of(p), k - 1, j - 1);
        assert(chain(p, k)[j] == chain(p, k).skip(1)[j - 1]);
    }
}

/// Counting components from `i` with `c` already seen steps over the first
/// component unchanged.
proof fn lemma_flenck_to_sep(p: Seq<u8>, i: int, c: int)
    requires
        0 <= i <= p.len(),
    ensures
        flenck_rec(p, i, c) == flenck_rec(p, comp_end(p, i), c),
    decreases p.len() - i,
{
    if i < p.len() && !is_sep(p[i]) {
        lemma_flenck_to_sep(p, i + 1, c);
    }
}

/// Counting components is the same on the path's tail.
proof fn lemma_flenck_skip(p: Seq<u8>, i: int, c: int)
    requires
        0 <= i <= p.len(),
    ensures
        flenck_rec(p, i, c) == flenck_rec(p.skip(i), 0, c),
{
    lemma_flenck_skip_gen(p, i, i, c);
}

proof fn lemma_flenck_skip_gen(p: Seq<u8>, base: int, i: int, c: int)
    requires
        0 <= base <= i <= p.len(),
    ensures
        flenck_rec(p, i, c) == flenck_rec(p.skip(base), i - base, c),
    decreases p.len() - i,
{
    let q = p.skip(base);
    assert(q.len() == p.len() - base);
    if i < p.len() {
        assert(q[i - base] == p[i]);
        if is_sep(p[i]) {
            if i + 1 != p.len() {
                lemma_flenck_skip_gen(p, base, i + 1, c + 1);
            }
        } else {
            lemma_flenck_skip_gen(p, base, i + 1, c);
        }
    }
}

/// The component count is additive in its accumulator.
proof fn lemma_flenck_add(p: Seq<u8>, i: int, c: int)
    requires
        0 <= i <= p.len(),
    ensures
        flenck_rec(p, i, c) == c + flenck_rec(p, i, 0),
    decreases p.len() - i,
{
    if i < p.len() {
        if is_sep(p[i]) {
            if i + 1 != p.len() {
                lemma_flenck_add(p, i + 1, c + 1);
                lemma_flenck_add(p, i + 1, 1);
            }
        } else {
            lemma_flenck_add(p, i + 1, c);
            lemma_flenck_add(p, i + 1, 0);
        }
    }
}

/// On a well-formed path, the insertion pass counts exactly the path's
/// components.
proof fn lemma_flenck_num_comps(p: Seq<u8>)
    requires
        wf_path(p),
    ensures
        flenck_rec(p, 0, 0) == num_comps(p),
        num_comps(p) >= 1,
    decreases p.len(),
{
    lemma_comp_end_sep(p, 0);
    let ce = comp_end(p, 0);
    lemma_flenck_to_sep(p, 0, 0);
    if ce == p.len() {
    } else {
        assert(rest_of(p).len() > 0);
        assert(ce + 1 < p.len());
        lemma_flenck_skip(p, ce + 1, 1);
        lemma_flenck_add(p.skip(ce + 1), 0, 1);
        assert(p.skip(ce + 1) == rest_of(p));
        lemma_flenck_num_comps(rest_of(p));
    }
}

/// Searching a window of a directory is searching the same window of its
/// tail, with the indices shifted back.
proof fn lemma_find_in_shift(dir: Seq<Descriptor>, lo: int, i: int, end: int, path: Seq<u8>)
    requires
        0 <= lo <= i,
        lo <= end <= dir.len(),
    ensures
        find_in(dir, i, end, path) == (match find_in(dir.skip(lo), i - lo, end - lo, path) {
            Some(t) => Some((t.0 + lo, t.1 + lo)),
            None => None::<(int, int)>,
        }),
    decreases end - i,
{
    if i < end {
        let d = dir[i];
        assert(dir.skip(lo)[i - lo] == d);
        let next = next_sib(d, i, end);
        assert(next_sib(d, i - lo, end - lo) == next - lo);
        match path_match(spec_name(d), path) {
            Some(tail) => {
                if tail.len() == 0 {
                } else if d.content_type == 0 {
                    lemma_find_in_shift(dir, lo, i + 1, next, tail);
                } else {
                    lemma_find_in_shift(dir, lo, next, end, path);
                }
            },
            None => {
                lemma_find_in_shift(dir, lo, next, end, path);
            },
        }
    }
}

/// Searching the chain created for a well-formed path with that path finds
/// its last descriptor exactly.
proof fn lemma_find_chain(p: Seq<u8>)
    requires
        wf_path(p),
        num_comps(p) <= u32::MAX,
    ensures
        ({
            let k = num_comps(p);
            find_in(chain(p, k), 0, k, p) == Some(((k - 1) as int, k as int))
        }),
    decreases p.len(),
{
    let k = num_comps(p);
    lemma_flenck_num_comps(p);
    lemma_chain_skip(p, k);
    lemma_comp_match(p);
    lemma_mk_name(comp_of(p), (k - 1) as u32);
    let d = chain(p, k)[0];
    assert(spec_name(d) == comp_of(p));
    assert(path_match(spec_name(d), p) == Some(rest_of(p)));
    let next = next_sib(d, 0, k);
    assert(next == k);
    if comp_end(p, 0) == p.len() {
        assert(k == 1);
        assert(rest_of(p) =~= Seq::<u8>::empty());
        assert(find_in(chain(p, k), 0, k, p) == Some((0int, 1int)));
    } else {
        let rest = rest_of(p);
        assert(rest.len() > 0);
        lemma_flenck_num_comps(rest);
        assert(k == 1 + num_comps(rest));
        assert(k >= 2);
        lemma_find_chain(rest);
        lemma_find_in_shift(chain(p, k), 1, 1, k, rest);
        assert(chain(p, k).skip(1) == chain(rest, k - 1));
        assert(find_in(chain(p, k), 1, k, rest) == Some(((k - 1) as int, k as int)));
    }
}

/// Searching the chain less its last descriptor with the full path finds
/// nothing: the last component has nowhere to match.
proof fn lemma_find_chain_missing(p: Seq<u8>)
    requires
        wf_path(p),
        num_comps(p) <= u32::MAX,
    ensures
        ({
            let k = num_comps(p);
            find_in(chain(p, k - 1), 0, k - 1, p) is None
        }),
    decreases p.len(),
{
    let k = num_comps(p);
    lemma_flenck_num_comps(p);
    if k == 1 {
        assert(chain(p, 0).len() == 0);
    } else {
        lemma_chain_skip(p, k - 1);
        lemma_comp_match(p);
        lemma_mk_name(comp_of(p), (k - 2) as u32);
        let d = chain(p, k - 1)[0];
        assert(spec_name(d) == comp_of(p));
        assert(path_match(spec_name(d), p) == Some(rest_of(p)));
        let rest = rest_of(p);
        assert(rest.len() > 0);
        lemma_flenck_num_comps(rest);
        assert(k >= 2);
        let next = next_sib(d, 0, k - 1);
        assert(next == k - 1);
        lemma_find_chain_missing(rest);
        lemma_find_in_shift(chain(p, k - 1), 1, 1, k - 1, rest);
        assert(chain(p, k - 1).skip(1) == chain(rest, k - 2));
    }
}

/// Walking a suffix of the directory that holds exactly the chain of the
/// remaining path bumps every ancestor on the chain but its last entry, and
/// ends on that last entry with nothing left of the path.
proof fn lemma_chain_walk(s: Seq<Descriptor>, j: int, q: Seq<u8>, inc: i32)
    requires
        0 <= j < s.len(),
        wf_path(q),
        num_comps(q) == s.len() - j,
        s.len() - j <= u32::MAX,
        s.skip(j) == chain(q, s.len() - j),
    ensures
        ({
            let t = dir_inc_spec(s, j, s.len() as int, q, inc);
            &&& t.1 == s.len() - 1
            &&& t.2 == Seq::<u8>::empty()
            &&& t.0.len() == s.len()
            &&& forall|m: int| 0 <= m < s.len() && !(j <= m < s.len() - 1) ==> t.0[m] == s[m]
            &&& forall|m: int| j <= m < s.len() - 1 ==> t.0[m] == desc_bumped(s[m], inc)
        }),
    decreases s.len() - j,
{
    let k = s.len() - j;
    lemma_flenck_num_comps(q);
    lemma_chain_skip(q, k);
    lemma_comp_match(q);
    lemma_mk_name(comp_of(q), (k - 1) as u32);
    let d = s[j];
    assert(d == chain(q, k)[0]) by {
        assert(s.skip(j)[0] == s[j]);
    }
    assert(spec_name(d) == comp_of(q));
    assert(path_match(spec_name(d), q) == Some(rest_of(q)));
    let next = next_sib(d, j, s.len() as int);
    assert(next == s.len());
    if comp_end(q, 0) == q.len() {
        assert(k == 1);
        assert(rest_of(q) =~= Seq::<u8>::empty());
        let t = dir_inc_spec(s, j, s.len() as int, q, inc);
        assert(t.1 == s.len() - 1);
        assert(t.2 == Seq::<u8>::empty());
        assert(t.0 == s);
    } else {
        let rest = rest_of(q);
        assert(rest.len() > 0);
        lemma_flenck_num_comps(rest);
        assert(k == 1 + num_comps(rest));
        let s2 = s.update(j, desc_bumped(d, inc));
        assert(s2.skip(j + 1) =~= chain(rest, k - 1)) by {
            assert forall|m: int|
                #![trigger s2.skip(j + 1)[m]]
                0 <= m < s.len() - j - 1 implies s2.skip(j + 1)[m] == chain(
                rest,
                k - 1,
            )[m] by {
                assert(s2.skip(j + 1)[m] == s[j + 1 + m]);
                assert(s.skip(j)[1 + m] == s[j + 1 + m]);
                assert(chain(q, k).skip(1)[m] == chain(q, k)[1 + m]);
            }
        }
        lemma_chain_walk(s2, j + 1, rest, inc);
        assert(dir_inc_spec(s, j, s.len() as int, q, inc) == dir_inc_spec(
            s2,
            j + 1,
            s.len() as int,
            rest,
            inc,
        ));
        let t = dir_inc_spec(s, j, s.len() as int, q, inc);
        assert(t.1 == s.len() - 1);
        assert(t.2 == Seq::<u8>::empty());
        assert(t.0.len() == s.len());
        assert forall|m: int| 0 <= m < s.len() && !(j <= m < s.len() - 1) implies t.0[m] == s[m] by {
            assert(t.0[m] == s2[m]);
        }
        assert forall|m: int| j <= m < s.len() - 1 implies t.0[m] == desc_bumped(s[m], inc) by {
            if m == j {
                assert(t.0[j] == s2[j]);
            } else {
                assert(t.0[m] == desc_bumped(s2[m], inc));
            }
        }
    }
}

/// create/remove duality on an empty directory: creating a path builds
/// exactly the chain of its components and hands back the last of them,
/// which carries the path's last component as its name and which the path
/// finds again. Removing the same path erases exactly that descriptor and
/// restores every ancestor's descendant count — the directory is left as if
/// only the parents had been created — and the path no longer finds
/// anything.
pub proof fn lemma_create_remove_duality(path: Seq<u8>)
    requires
        wf_path(path),
        num_comps(path) <= u32::MAX,
    ensures
        ({
            let k = num_comps(path);
            let created = create_spec(Seq::<Descriptor>::empty(), path);
            &&& created.1 == k - 1
            &&& created.0 == chain(path, k)
            &&& spec_name(created.0[k - 1]) == last_comp(path)
            &&& created.0[k - 1].content_type == 0
            &&& created.0[k - 1].content_size == 0
            &&& find_in(created.0, 0, k, path) == Some(((k - 1) as int, k as int))
            &&& remove_finds(created.0, path)
            &&& remove_spec(created.0, path) == chain(path, k - 1)
            &&& find_in(remove_spec(created.0, path), 0, k - 1, path) is None
        }),
{
    let k = num_comps(path);
    lemma_flenck_num_comps(path);
    let e = Seq::<Descriptor>::empty();
    let t0 = dir_inc_spec(e, 0, 0, path, 0);
    assert(t0 == (e, 0int, path));
    assert(missing_spec(path) == k);
    let tk = dir_inc_spec(e, 0, 0, path, k as i32);
    assert(tk.0 == e);
    lemma_chain_len(path, k);
    let created = create_spec(e, path);
    assert(created.0 =~= chain(path, k));
    assert(created.1 == k - 1);
    // The returned descriptor is the last of the chain, named after the last
    // component.
    lemma_chain_index_last(path, k);
    lemma_mk_name(last_comp(path), 0u32);
    // The path finds it again.
    lemma_find_chain(path);
    // The removal walk ends on the same descriptor, bumps each ancestor down
    // by one, and erasing the slot leaves the chain of the parents.
    assert(chain(path, k).skip(0) =~= chain(path, k));
    lemma_chain_walk(chain(path, k), 0, path, 0);
    let tw0 = dir_inc_spec(chain(path, k), 0, k, path, 0);
    assert(tw0.1 == k - 1);
    assert(remove_finds(created.0, path));
    lemma_chain_walk(chain(path, k), 0, path, (-1) as i32);
    let twm = dir_inc_spec(chain(path, k), 0, k, path, (-1) as i32);
    assert(remove_spec(created.0, path) == twm.0.remove(k - 1));
    assert(twm.0.remove(k - 1) =~= chain(path, k - 1)) by {
        lemma_chain_len(path, k - 1);
        assert forall|m: int|
            #![trigger twm.0.remove(k - 1)[m]]
            0 <= m < k - 1 implies twm.0.remove(k - 1)[m] == chain(
            path,
            k - 1,
        )[m] by {
            lemma_chain_index(path, k, m);
            lemma_chain_index(path, k - 1, m);
            assert(twm.0[m] == desc_bumped(chain(path, k)[m], (-1) as i32));
            let n = (k - m - 1) as u32;
            vstd::arithmetic::div_mod::lemma_fundamental_div_mod_converse(
                n - 1,
                0x1_0000_0000,
                0,
                n - 1,
            );
            assert(add_size_spec(n, (-1) as i32) == (k - m - 2) as u32);
        }
    }
    lemma_find_chain_missing(path);
}

/// The last entry of the chain is a fresh, empty directory named after the
/// path's last component.
proof fn lemma_chain_index_last(p: Seq<u8>, k: int)
    requires
        wf_path(p),
        k == num_comps(p),
        k <= u32::MAX,
    ensures
        chain(p, k)[k - 1] == mk_dir_desc(last_comp(p), 0u32),
        last_comp(p).len() <= 31,
        last_comp(p).len() >= 1,
    decreases p.len(),
{
    lemma_flenck_num_comps(p);
    lemma_comp_end_sep(p, 0);
    lemma_chain_skip(p, k);
    lemma_chain_len(p, k);
    if comp_end(p, 0) == p.len() {
        assert(k == 1);
        assert(last_comp(p) == comp_of(p));
    } else {
        let rest = rest_of(p);
        lemma_flenck_num_comps(rest);
        lemma_chain_index_last(rest, k - 1);
        assert(chain(p, k)[k - 1] == chain(p, k).skip(1)[k - 2]);
        assert(last_comp(p) == last_comp(rest)) by {
            assert(comp_at(p, k - 1) == comp_at(rest, k - 2));
        }
    }
}

/// Finalises directory addresses: points every directory descriptor's
/// section at its own subtree.
pub fn update_dir_address(dir: &mut [Descriptor])
    requires
        old(dir)@.len() <= u32::MAX,
    ensures
        final(dir)@ == update_addr_spec(old(dir)@),
{
    let mut i: usize = 0;
    while i < dir.len()
        invariant
            dir@.len() == old(dir)@.len(),
            old(dir)@.len() <= u32::MAX,
            i <= dir@.len(),
            forall|m: int| i <= m < dir@.len() ==> dir@[m] == old(dir)@[m],
            forall|m: int| 0 <= m < i ==> dir@[m] == update_addr_spec(old(dir)@)[m],
        decreases dir@.len() - i,
    {
        let d = dir[i];
        if d.content_type == 0 {
            let mut d2 = d;
            d2.section.offset = (i + 1) as u32;
            d2.section.size = d.content_size;
            dir[i] = d2;
        }
        i = i + 1;
    }
    proof {
        assert(dir@ =~= update_addr_spec(old(dir)@));
    }
}

} // verus!
