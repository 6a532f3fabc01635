//! The region catalog: the model of the target's memory map.
//!
//! The embedder reads the OS's per-process memory-map description — one
//! text line per region, `start-end perms offset dev inode [pathname]` —
//! and hands the raw bytes to this module, which parses them into typed
//! regions, classifies regions by permission and by path heuristics, and
//! answers address lookups.  The map is re-read for every command, since
//! the target's mappings may change between commands; nothing here caches.

use vstd::prelude::*;

verus! {

/// Memory permissions of one region.
#[derive(Debug, Clone, Copy, PartialEq, Eq, Structural)]
pub struct Permissions {
    /// Whether the memory is readable.
    pub read: bool,
    /// Whether the memory is writeable.
    pub write: bool,
    /// Whether the memory is executable.
    pub execute: bool,
    /// Whether the memory is shared, as opposed to private copy-on-write.
    pub shared: bool,
}

impl Permissions {
    /// Parses the four-character permission field `rwxs`, where each
    /// position is its letter or a filler.
    pub fn from_str(s: &[u8]) -> (r: Option<Permissions>)
        ensures
            match r {
                Some(p) => {
                    &&& s@.len() >= 4
                    &&& p == (Permissions {
                        read: s@[0] == 0x72,
                        write: s@[1] == 0x77,
                        execute: s@[2] == 0x78,
                        shared: s@[3] == 0x73,
                    })
                },
                None => s@.len() < 4,
            },
    {
        if s.len() < 4 {
            return None;
        }
        Some(
            Permissions {
                read: s[0] == 0x72,
                write: s[1] == 0x77,
                execute: s[2] == 0x78,
                shared: s[3] == 0x73,
            },
        )
    }
}

/// One contiguous region of the target's address space: a half-open
/// address range, its permissions, and the path of the backing file, if
/// the map names one.  Pseudo-paths such as `[stack]` are kept verbatim.
#[derive(Debug, Clone)]
pub struct Region {
    /// First address of the region.
    pub start: u64,
    /// First address past the region.
    pub end: u64,
    /// The memory permissions.
    pub perms: Permissions,
    /// The backing path, with pseudo-paths included.
    pub path: Option<Vec<u8>>,
}

/// The mathematical model of a [`Region`]: the same fields with the
/// path as a byte sequence.
pub struct RegionModel {
    /// First address of the region.
    pub start: u64,
    /// First address past the region.
    pub end: u64,
    /// The memory permissions.
    pub perms: Permissions,
    /// The backing path, with pseudo-paths included.
    pub path: Option<Seq<u8>>,
}

impl View for Region {
    type V = RegionModel;

    open spec fn view(&self) -> RegionModel {
        RegionModel {
            start: self.start,
            end: self.end,
            perms: self.perms,
            path: match self.path {
                Some(p) => Some(p@),
                None => None,
            },
        }
    }
}

impl RegionModel {
    /// The address range is non-empty.
    pub open spec fn wf(self) -> bool {
        self.start < self.end
    }

    /// True when `addr` lies inside the region's half-open range.
    pub open spec fn contains(self, addr: u64) -> bool {
        self.start <= addr < self.end
    }
}

/// True when `pre` is a prefix of `s`.
pub open spec fn spec_starts_with(s: Seq<u8>, pre: Seq<u8>) -> bool {
    pre.len() <= s.len() && s.subrange(0, pre.len() as int) == pre
}

/// True when `suf` is a suffix of `s`.
pub open spec fn spec_ends_with(s: Seq<u8>, suf: Seq<u8>) -> bool {
    suf.len() <= s.len() && s.subrange(s.len() - suf.len(), s.len() as int) == suf
}

/// Whether `pre` is a prefix of `s`.
pub fn starts_with(s: &[u8], pre: &[u8]) -> (r: bool)
    ensures
        r == spec_starts_with(s@, pre@),
{
    if pre.len() > s.len() {
        return false;
    }
    let mut i: usize = 0;
    while i < pre.len()
        invariant
            0 <= i <= pre@.len() <= s@.len(),
            forall|j: int| 0 <= j < i ==> s@[j] == pre@[j],
        decreases pre@.len() - i,
    {
        if s[i] != pre[i] {
            assert(s@.subrange(0, pre@.len() as int)[i as int] != pre@[i as int]);
            return false;
        }
        i = i + 1;
    }
    proof {
        assert(s@.subrange(0, pre@.len() as int) =~= pre@);
    }
    true
}

/// Whether `suf` is a suffix of `s`.
pub fn ends_with(s: &[u8], suf: &[u8]) -> (r: bool)
    ensures
        r == spec_ends_with(s@, suf@),
{
    if suf.len() > s.len() {
        return false;
    }
    let off = s.len() - suf.len();
    let mut i: usize = 0;
    while i < suf.len()
        invariant
            0 <= i <= suf@.len() <= s@.len(),
            s@.len() <= usize::MAX,
            off == s@.len() - suf@.len(),
            forall|j: int| 0 <= j < i ==> s@[off + j] == suf@[j],
        decreases suf@.len() - i,
    {
        if s[off + i] != suf[i] {
            assert(s@.subrange(s@.len() - suf@.len(), s@.len() as int)[i as int] != suf@[i as int]);
            return false;
        }
        i = i + 1;
    }
    proof {
        assert(s@.subrange(s@.len() - suf@.len(), s@.len() as int) =~= suf@);
    }
    true
}

/// A region the scanner considers worth scanning: readable, and not one
/// of the pseudo, device, kernel-descriptor or deleted mappings.
pub open spec fn spec_is_interesting(r: RegionModel) -> bool {
    &&& r.perms.read
    &&& match r.path {
        Some(p) => {
            // "[vvar" covers "[vvar]" and "[vvar_vclock]".
            &&& !spec_starts_with(p, seq![0x5b, 0x76, 0x76, 0x61, 0x72])
            // "[vdso]"
            &&& p != seq![0x5bu8, 0x76, 0x64, 0x73, 0x6f, 0x5d]
            // "[vsyscall]"
            &&& p != seq![0x5bu8, 0x76, 0x73, 0x79, 0x73, 0x63, 0x61, 0x6c, 0x6c, 0x5d]
            // "/dev"
            &&& !spec_starts_with(p, seq![0x2f, 0x64, 0x65, 0x76])
            // "/sys"
            &&& !spec_starts_with(p, seq![0x2f, 0x73, 0x79, 0x73])
            // "/proc"
            &&& !spec_starts_with(p, seq![0x2f, 0x70, 0x72, 0x6f, 0x63])
            // "anon_inode:"
            &&& !spec_starts_with(
                p,
                seq![0x61, 0x6e, 0x6f, 0x6e, 0x5f, 0x69, 0x6e, 0x6f, 0x64, 0x65, 0x3a],
            )
            // "memfd:"
            &&& !spec_starts_with(p, seq![0x6d, 0x65, 0x6d, 0x66, 0x64, 0x3a])
            // "(deleted)"
            &&& !spec_ends_with(p, seq![0x28, 0x64, 0x65, 0x6c, 0x65, 0x74, 0x65, 0x64, 0x29])
        },
        None => true,
    }
}

/// A region likely backed by a stable, real file: it has a path that is
/// not a bracketed pseudo-path, not under a device, proc, sys, tmp or
/// run tree, not a kernel memory descriptor, and not deleted.  A
/// heuristic for colouring output only; it gates no scan.
pub open spec fn spec_is_likely_file_backed(r: RegionModel) -> bool {
    match r.path {
        Some(p) => {
            // "["
            &&& !spec_starts_with(p, seq![0x5b])
            // "/dev"
            &&& !spec_starts_with(p, seq![0x2f, 0x64, 0x65, 0x76])
            // "/proc"
            &&& !spec_starts_with(p, seq![0x2f, 0x70, 0x72, 0x6f, 0x63])
            // "/sys"
            &&& !spec_starts_with(p, seq![0x2f, 0x73, 0x79, 0x73])
            // "/tmp"
            &&& !spec_starts_with(p, seq![0x2f, 0x74, 0x6d, 0x70])
            // "/run"
            &&& !spec_starts_with(p, seq![0x2f, 0x72, 0x75, 0x6e])
            // "(deleted)"
            &&& !spec_ends_with(p, seq![0x28, 0x64, 0x65, 0x6c, 0x65, 0x74, 0x65, 0x64, 0x29])
            // "memfd:"
            &&& !spec_starts_with(p, seq![0x6d, 0x65, 0x6d, 0x66, 0x64, 0x3a])
        },
        None => false,
    }
}

impl Region {
    /// Whether this region is interesting enough for the scanner to
    /// scan; see [`spec_is_interesting`].
    pub fn is_interesting(&self) -> (r: bool)
        ensures
            r == spec_is_interesting(self@),
    {
        if !self.perms.read {
            return false;
        }
        match &self.path {
            Some(p) => {
                let name = p.as_slice();
                let vvar: Vec<u8> = vec![0x5b, 0x76, 0x76, 0x61, 0x72];
                let vdso: Vec<u8> = vec![0x5b, 0x76, 0x64, 0x73, 0x6f, 0x5d];
                let vsyscall: Vec<u8> = vec![0x5b, 0x76, 0x73, 0x79, 0x73, 0x63, 0x61, 0x6c, 0x6c, 0x5d];
                let dev: Vec<u8> = vec![0x2f, 0x64, 0x65, 0x76];
                let sys: Vec<u8> = vec![0x2f, 0x73, 0x79, 0x73];
                let proc_: Vec<u8> = vec![0x2f, 0x70, 0x72, 0x6f, 0x63];
                let anon: Vec<u8> = vec![0x61, 0x6e, 0x6f, 0x6e, 0x5f, 0x69, 0x6e, 0x6f, 0x64, 0x65, 0x3a];
                let memfd: Vec<u8> = vec![0x6d, 0x65, 0x6d, 0x66, 0x64, 0x3a];
                let deleted: Vec<u8> = vec![0x28, 0x64, 0x65, 0x6c, 0x65, 0x74, 0x65, 0x64, 0x29];
                proof {
                    assert(vvar@ =~= seq![0x5bu8, 0x76, 0x76, 0x61, 0x72]);
                    assert(vdso@ =~= seq![0x5bu8, 0x76, 0x64, 0x73, 0x6f, 0x5d]);
                    assert(vsyscall@ =~= seq![0x5bu8, 0x76, 0x73, 0x79, 0x73, 0x63, 0x61, 0x6c, 0x6c, 0x5d]);
                    assert(dev@ =~= seq![0x2fu8, 0x64, 0x65, 0x76]);
                    assert(sys@ =~= seq![0x2fu8, 0x73, 0x79, 0x73]);
                    assert(proc_@ =~= seq![0x2fu8, 0x70, 0x72, 0x6f, 0x63]);
                    assert(anon@ =~= seq![0x61u8, 0x6e, 0x6f, 0x6e, 0x5f, 0x69, 0x6e, 0x6f, 0x64, 0x65, 0x3a]);
                    assert(memfd@ =~= seq![0x6du8, 0x65, 0x6d, 0x66, 0x64, 0x3a]);
                    assert(deleted@ =~= seq![0x28u8, 0x64, 0x65, 0x6c, 0x65, 0x74, 0x65, 0x64, 0x29]);
                }
                if starts_with(name, vvar.as_slice()) {
                    return false;
                }
                if name.len() == 6 && starts_with(name, vdso.as_slice()) {
                    proof {
                        assert(p@ =~= p@.subrange(0, 6));
                    }
                    return false;
                }
                if name.len() == 10 && starts_with(name, vsyscall.as_slice()) {
                    proof {
                        assert(p@ =~= p@.subrange(0, 10));
                    }
                    return false;
                }
                if starts_with(name, dev.as_slice()) || starts_with(name, sys.as_slice())
                    || starts_with(name, proc_.as_slice()) {
                    return false;
                }
                if starts_with(name, anon.as_slice()) || starts_with(name, memfd.as_slice()) {
                    return false;
                }
                if ends_with(name, deleted.as_slice()) {
                    return false;
                }
                proof {
                    if p@ == seq![0x5bu8, 0x76, 0x64, 0x73, 0x6f, 0x5d] {
                        assert(p@.subrange(0, 6) =~= seq![0x5bu8, 0x76, 0x64, 0x73, 0x6f, 0x5d]);
                    }
                    if p@ == seq![0x5bu8, 0x76, 0x73, 0x79, 0x73, 0x63, 0x61, 0x6c, 0x6c, 0x5d] {
                        assert(p@.subrange(0, 10) =~= seq![0x5bu8, 0x76, 0x73, 0x79, 0x73, 0x63, 0x61, 0x6c, 0x6c, 0x5d]);
                    }
                }
                true
            },
            None => true,
        }
    }

    /// Whether this region is likely backed by a stable, real file; see
    /// [`spec_is_likely_file_backed`].
    pub fn is_likely_file_backed(&self) -> (r: bool)
        ensures
            r == spec_is_likely_file_backed(self@),
    {
        match &self.path {
            Some(p) => {
                let name = p.as_slice();
                let bracket: Vec<u8> = vec![0x5b];
                let dev: Vec<u8> = vec![0x2f, 0x64, 0x65, 0x76];
                let proc_: Vec<u8> = vec![0x2f, 0x70, 0x72, 0x6f, 0x63];
                let sys: Vec<u8> = vec![0x2f, 0x73, 0x79, 0x73];
                let tmp: Vec<u8> = vec![0x2f, 0x74, 0x6d, 0x70];
                let run: Vec<u8> = vec![0x2f, 0x72, 0x75, 0x6e];
                let deleted: Vec<u8> = vec![0x28, 0x64, 0x65, 0x6c, 0x65, 0x74, 0x65, 0x64, 0x29];
                let memfd: Vec<u8> = vec![0x6d, 0x65, 0x6d, 0x66, 0x64, 0x3a];
                proof {
                    assert(bracket@ =~= seq![0x5bu8]);
                    assert(dev@ =~= seq![0x2fu8, 0x64, 0x65, 0x76]);
                    assert(proc_@ =~= seq![0x2fu8, 0x70, 0x72, 0x6f, 0x63]);
                    assert(sys@ =~= seq![0x2fu8, 0x73, 0x79, 0x73]);
                    assert(tmp@ =~= seq![0x2fu8, 0x74, 0x6d, 0x70]);
                    assert(run@ =~= seq![0x2fu8, 0x72, 0x75, 0x6e]);
                    assert(deleted@ =~= seq![0x28u8, 0x64, 0x65, 0x6c, 0x65, 0x74, 0x65, 0x64, 0x29]);
                    assert(memfd@ =~= seq![0x6du8, 0x65, 0x6d, 0x66, 0x64, 0x3a]);
                }
                if starts_with(name, bracket.as_slice()) {
                    return false;
                }
                if starts_with(name, dev.as_slice()) || starts_with(name, proc_.as_slice())
                    || starts_with(name, sys.as_slice()) || starts_with(name, tmp.as_slice())
                    || starts_with(name, run.as_slice()) {
                    return false;
                }
                if ends_with(name, deleted.as_slice()) {
                    return false;
                }
                if starts_with(name, memfd.as_slice()) {
                    return false;
                }
                true
            },
            None => false,
        }
    }
}


/// True for the blank bytes that separate fields of a map line.
pub open spec fn is_ws(b: u8) -> bool {
    b == 0x20 || b == 0x09
}

/// Length of the maximal run of non-blank bytes starting at `pos`.
pub open spec fn token_len(s: Seq<u8>, pos: int) -> nat
    decreases s.len() - pos,
{
    if pos < 0 || pos >= s.len() || is_ws(s[pos]) {
        0
    } else {
        1 + token_len(s, pos + 1)
    }
}

/// The blank-separated fields of `s` at or after `pos`, in order.
pub open spec fn split_ws_from(s: Seq<u8>, pos: int) -> Seq<Seq<u8>>
    decreases s.len() - pos,
{
    if pos < 0 || pos >= s.len() {
        Seq::empty()
    } else if is_ws(s[pos]) {
        split_ws_from(s, pos + 1)
    } else {
        let e = vstd::math::min(pos + token_len(s, pos), s.len() as int);
        seq![s.subrange(pos, e)] + split_ws_from(s, e)
    }
}

/// The maximal non-blank run starting inside `s` stays inside `s`.
proof fn lemma_token_len_bound(s: Seq<u8>, pos: int)
    requires
        0 <= pos <= s.len(),
    ensures
        pos + token_len(s, pos) <= s.len(),
    decreases s.len() - pos,
{
    if pos < s.len() && !is_ws(s[pos]) {
        lemma_token_len_bound(s, pos + 1);
    }
}

/// The maximal non-blank run ends at the first blank byte, or at the end
/// of `s`.
proof fn lemma_token_len_at(s: Seq<u8>, pos: int, e: int)
    requires
        0 <= pos <= e <= s.len(),
        forall|j: int| pos <= j < e ==> !is_ws(#[trigger] s[j]),
        e == s.len() || is_ws(s[e]),
    ensures
        token_len(s, pos) == e - pos,
    decreases e - pos,
{
    if pos < e {
        lemma_token_len_at(s, pos + 1, e);
    }
}

/// Sequence of the views of a vector of byte vectors.
pub open spec fn views(ts: Seq<Vec<u8>>) -> Seq<Seq<u8>> {
    ts.map_values(|t: Vec<u8>| t@)
}

/// Splits a byte string into its blank-separated fields.
pub fn split_ws(s: &[u8]) -> (r: Vec<Vec<u8>>)
    ensures
        views(r@) == split_ws_from(s@, 0),
{
    let mut out: Vec<Vec<u8>> = Vec::new();
    let mut pos: usize = 0;
    while pos < s.len()
        invariant
            0 <= pos <= s@.len(),
            split_ws_from(s@, 0) == views(out@) + split_ws_from(s@, pos as int),
        decreases s@.len() - pos,
    {
        if s[pos] == 0x20 || s[pos] == 0x09 {
            pos = pos + 1;
        } else {
            let mut e: usize = pos;
            while e < s.len() && s[e] != 0x20 && s[e] != 0x09
                invariant
                    pos <= e <= s@.len(),
                    forall|j: int| pos <= j < e ==> !is_ws(#[trigger] s@[j]),
                decreases s@.len() - e,
            {
                e = e + 1;
            }
            proof {
                lemma_token_len_at(s@, pos as int, e as int);
            }
            let tok = vstd::slice::slice_to_vec(&s[pos..e]);
            out.push(tok);
            proof {
                assert(views(out@) =~= views(out@.drop_last()) + seq![s@.subrange(
                    pos as int,
                    e as int,
                )]);
                assert(views(out@.drop_last()) + (seq![s@.subrange(pos as int, e as int)]
                    + split_ws_from(s@, e as int)) =~= views(out@) + split_ws_from(s@, e as int));
            }
            pos = e;
        }
    }
    proof {
        assert(views(out@) + split_ws_from(s@, pos as int) =~= views(out@));
    }
    out
}

/// First position at or after `pos` where byte `b` occurs in `s`.
pub open spec fn find_byte(s: Seq<u8>, b: u8, pos: int) -> Option<int>
    decreases s.len() - pos,
{
    if pos < 0 || pos >= s.len() {
        None
    } else if s[pos] == b {
        Some(pos)
    } else {
        find_byte(s, b, pos + 1)
    }
}

/// Finds the first occurrence of byte `b` in `s` at or after `pos`.
pub fn find_byte_from(s: &[u8], b: u8, pos: usize) -> (r: Option<usize>)
    requires
        pos <= s@.len(),
    ensures
        match r {
            Some(i) => find_byte(s@, b, pos as int) == Some(i as int) && pos <= i < s@.len(),
            None => find_byte(s@, b, pos as int) is None,
        },
{
    let mut i: usize = pos;
    while i < s.len()
        invariant
            pos <= i <= s@.len(),
            find_byte(s@, b, pos as int) == find_byte(s@, b, i as int),
        decreases s@.len() - i,
    {
        if s[i] == b {
            return Some(i);
        }
        i = i + 1;
    }
    None
}

/// The fields joined with one blank between each pair: the backing path
/// as the map line carries it.
pub open spec fn join_sp(ts: Seq<Seq<u8>>) -> Seq<u8>
    decreases ts.len(),
{
    if ts.len() == 0 {
        Seq::empty()
    } else if ts.len() == 1 {
        ts[0]
    } else {
        ts[0] + seq![0x20u8] + join_sp(ts.subrange(1, ts.len() as int))
    }
}

/// Joining one more field appends a blank and the field.
proof fn lemma_join_push(ts: Seq<Seq<u8>>, k: int)
    requires
        1 <= k < ts.len(),
    ensures
        join_sp(ts.subrange(0, k + 1)) == join_sp(ts.subrange(0, k)) + seq![0x20u8] + ts[k],
    decreases k,
{
    let a = ts.subrange(0, k + 1);
    let b = ts.subrange(0, k);
    if k == 1 {
        assert(a.subrange(1, a.len() as int) =~= seq![ts[1]]);
        assert(join_sp(a) == a[0] + seq![0x20u8] + join_sp(a.subrange(1, a.len() as int)));
        assert(join_sp(b) =~= ts[0]);
    } else {
        let ts1 = ts.subrange(1, ts.len() as int);
        lemma_join_push(ts1, k - 1);
        assert(ts1.subrange(0, k) =~= a.subrange(1, a.len() as int));
        assert(ts1.subrange(0, k - 1) =~= b.subrange(1, b.len() as int));
        assert(ts1[k - 1] == ts[k]);
        assert(join_sp(a) == a[0] + seq![0x20u8] + join_sp(a.subrange(1, a.len() as int)));
        assert(join_sp(b) == b[0] + seq![0x20u8] + join_sp(b.subrange(1, b.len() as int)));
        assert(join_sp(a) =~= join_sp(b) + seq![0x20u8] + ts[k]);
    }
}

/// Joins fields with one blank between each pair.
fn join_fields(ts: &Vec<Vec<u8>>, from: usize) -> (r: Vec<u8>)
    requires
        from < ts@.len(),
    ensures
        r@ == join_sp(views(ts@).subrange(from as int, ts@.len() as int)),
{
    let n = ts.len();
    let ghost all = views(ts@).subrange(from as int, ts@.len() as int);
    let mut out: Vec<u8> = Vec::new();
    out.extend_from_slice(ts[from].as_slice());
    proof {
        assert(all.subrange(0, 1) =~= seq![ts@[from as int]@]);
        assert(out@ =~= join_sp(all.subrange(0, 1)));
    }
    let mut k: usize = from + 1;
    while k < n
        invariant
            n == ts@.len(),
            from + 1 <= k <= ts@.len(),
            all == views(ts@).subrange(from as int, ts@.len() as int),
            out@ == join_sp(all.subrange(0, k - from)),
        decreases ts@.len() - k,
    {
        out.push(0x20);
        out.extend_from_slice(ts[k].as_slice());
        proof {
            lemma_join_push(all, k - from);
            assert(all[k - from] == ts@[k as int]@);
            assert(out@ =~= join_sp(all.subrange(0, k - from)) + seq![0x20u8] + all[k - from]);
        }
        k = k + 1;
    }
    proof {
        assert(all.subrange(0, ts@.len() - from) =~= all);
    }
    out
}

/// The region described by one line of the map text, or `None` when the
/// line does not parse: fields are blank-separated; the first field is
/// `start-end` in hexadecimal with `start` below `end`; the second is
/// the permission field; fields beyond the fifth, if any, joined with
/// single blanks, are the backing path.
pub open spec fn spec_from_line(line: Seq<u8>) -> Option<RegionModel> {
    let toks = split_ws_from(line, 0);
    if toks.len() < 2 {
        None
    } else {
        match find_byte(toks[0], 0x2d, 0) {
            None => None,
            Some(d) => {
                let sh = toks[0].subrange(0, d);
                let eh = toks[0].subrange(d + 1, toks[0].len() as int);
                if sh.len() == 0 || !crate::num::all_hex_digits(sh) || crate::num::hex_val(sh)
                    > u64::MAX {
                    None
                } else if eh.len() == 0 || !crate::num::all_hex_digits(eh) || crate::num::hex_val(
                    eh,
                ) > u64::MAX {
                    None
                } else if crate::num::hex_val(sh) >= crate::num::hex_val(eh) {
                    None
                } else if toks[1].len() < 4 {
                    None
                } else {
                    Some(
                        RegionModel {
                            start: crate::num::hex_val(sh) as u64,
                            end: crate::num::hex_val(eh) as u64,
                            perms: Permissions {
                                read: toks[1][0] == 0x72,
                                write: toks[1][1] == 0x77,
                                execute: toks[1][2] == 0x78,
                                shared: toks[1][3] == 0x73,
                            },
                            path: if toks.len() >= 6 {
                                Some(join_sp(toks.subrange(5, toks.len() as int)))
                            } else {
                                None
                            },
                        },
                    )
                }
            },
        }
    }
}

impl Region {
    /// Parses one line of the map text; see [`spec_from_line`].
    ///
    /// A line whose address range is empty or reversed describes no
    /// region and yields `None`, so every parsed region has a non-empty
    /// range.
    pub fn from_line(line: &[u8]) -> (r: Option<Region>)
        ensures
            match r {
                Some(reg) => spec_from_line(line@) == Some(reg@) && reg@.wf(),
                None => spec_from_line(line@) is None,
            },
    {
        let toks = split_ws(line);
        if toks.len() < 2 {
            return None;
        }
        let addr_tok = toks[0].as_slice();
        let nt = addr_tok.len();
        let d = match find_byte_from(addr_tok, 0x2d, 0) {
            Some(d) => d,
            None => {
                return None;
            },
        };
        let start = match crate::num::parse_u64_hex(&addr_tok[0..d]) {
            Ok(v) => v,
            Err(_) => {
                return None;
            },
        };
        let end = match crate::num::parse_u64_hex(&addr_tok[d + 1..nt]) {
            Ok(v) => v,
            Err(_) => {
                return None;
            },
        };
        if start >= end {
            return None;
        }
        let perms = match Permissions::from_str(toks[1].as_slice()) {
            Some(p) => p,
            None => {
                return None;
            },
        };
        let path = if toks.len() >= 6 {
            Some(join_fields(&toks, 5))
        } else {
            None
        };
        Some(Region { start, end, perms, path })
    }
}


/// Which regions of the map a command works on.
#[derive(Debug, Clone, Copy, PartialEq, Eq, Structural)]
pub enum RegionFilter {
    /// Every region of the map.
    All,
    /// Readable regions.
    Readable,
    /// Readable and writeable regions.
    ReadWrite,
    /// Readable, writeable and interesting: the source of a value scan.
    Interesting,
    /// Readable and interesting: the source of a pattern or string scan.
    InterestingReadable,
}

/// Whether a region passes a filter.
pub open spec fn spec_passes(f: RegionFilter, m: RegionModel) -> bool {
    match f {
        RegionFilter::All => true,
        RegionFilter::Readable => m.perms.read,
        RegionFilter::ReadWrite => m.perms.read && m.perms.write,
        RegionFilter::Interesting => m.perms.read && m.perms.write && spec_is_interesting(m),
        RegionFilter::InterestingReadable => m.perms.read && spec_is_interesting(m),
    }
}

/// The regions parsed from the map text at or after `pos`, one line at a
/// time, keeping those that parse and pass the filter.
pub open spec fn spec_regions_from(text: Seq<u8>, pos: int, f: RegionFilter) -> Seq<RegionModel>
    decreases text.len() - pos,
{
    if pos < 0 || pos > text.len() {
        Seq::empty()
    } else {
        match find_byte(text, 0x0a, pos) {
            Some(j) => if pos <= j < text.len() {
                spec_line_region(text.subrange(pos, j), f) + spec_regions_from(text, j + 1, f)
            } else {
                Seq::empty()
            },
            None => spec_line_region(text.subrange(pos, text.len() as int), f),
        }
    }
}

/// The regions one line contributes: one when it parses and passes the
/// filter, none otherwise.
pub open spec fn spec_line_region(line: Seq<u8>, f: RegionFilter) -> Seq<RegionModel> {
    match spec_from_line(line) {
        Some(m) => if spec_passes(f, m) {
            seq![m]
        } else {
            Seq::empty()
        },
        None => Seq::empty(),
    }
}

/// The parsed catalog: regions of the target's map, in map order.
#[derive(Debug, Clone)]
pub struct Maps(pub Vec<Region>);

impl View for Maps {
    type V = Seq<RegionModel>;

    open spec fn view(&self) -> Seq<RegionModel> {
        self.0@.map_values(|r: Region| r@)
    }
}

/// Every region of a catalog has a non-empty address range, the regions
/// ascend by start address, and no two overlap.
pub open spec fn catalog_wf(ms: Seq<RegionModel>) -> bool {
    &&& forall|i: int| 0 <= i < ms.len() ==> (#[trigger] ms[i]).wf()
    &&& forall|i: int, j: int| 0 <= i < j < ms.len() ==> #[trigger] ms[i].end <= #[trigger] ms[j].start
}

impl Region {
    /// Whether this region passes a filter.
    pub fn passes(&self, f: RegionFilter) -> (r: bool)
        ensures
            r == spec_passes(f, self@),
    {
        match f {
            RegionFilter::All => true,
            RegionFilter::Readable => self.perms.read,
            RegionFilter::ReadWrite => self.perms.read && self.perms.write,
            RegionFilter::Interesting => self.perms.read && self.perms.write
                && self.is_interesting(),
            RegionFilter::InterestingReadable => self.perms.read && self.is_interesting(),
        }
    }
}

impl Maps {
    /// Parses the map text, one region per line, keeping the regions
    /// that pass the filter.  Lines that do not parse are skipped, as
    /// the map may carry fields this model does not know.
    pub fn regions(text: &[u8], f: RegionFilter) -> (r: Maps)
        ensures
            r@ == spec_regions_from(text@, 0, f),
            forall|i: int| 0 <= i < r@.len() ==> (#[trigger] r@[i]).wf(),
            forall|i: int| 0 <= i < r@.len() ==> spec_passes(f, #[trigger] r@[i]),
    {
        proof {
            lemma_regions_from_wf(text@, 0, f);
        }
        let n = text.len();
        let mut out: Vec<Region> = Vec::new();
        let mut pos: usize = 0;
        while pos < n
            invariant
                0 <= pos <= n,
                n == text@.len(),
                spec_regions_from(text@, 0, f) == out@.map_values(|r: Region| r@)
                    + spec_regions_from(text@, pos as int, f),
            decreases n - pos,
        {
            let ghost pos0 = pos as int;
            let ghost out0 = out@;
            let line_end: usize;
            let next_pos: usize;
            match find_byte_from(text, 0x0a, pos) {
                Some(j) => {
                    line_end = j;
                    next_pos = j + 1;
                },
                None => {
                    line_end = n;
                    next_pos = n;
                },
            }
            match Region::from_line(&text[pos..line_end]) {
                Some(reg) => {
                    let keep = reg.passes(f);
                    if keep {
                        out.push(reg);
                    }
                    proof {
                        if keep {
                            assert(out@.map_values(|r: Region| r@) =~= out0.map_values(
                                |r: Region| r@,
                            ) + seq![out@.last()@]);
                        }
                        assert(out@.map_values(|r: Region| r@) + spec_regions_from(
                            text@,
                            next_pos as int,
                            f,
                        ) =~= out0.map_values(|r: Region| r@) + spec_regions_from(text@, pos0, f));
                    }
                },
                None => {
                    proof {
                        assert(out@.map_values(|r: Region| r@) + spec_regions_from(
                            text@,
                            next_pos as int,
                            f,
                        ) =~= out0.map_values(|r: Region| r@) + spec_regions_from(text@, pos0, f));
                    }
                },
            }
            pos = next_pos;
        }
        proof {
            assert(out@.map_values(|r: Region| r@) + spec_regions_from(text@, pos as int, f)
                =~= out@.map_values(|r: Region| r@));
        }
        Maps(out)
    }

    /// The readable and writeable regions of the map text.
    pub fn rw_regions(text: &[u8]) -> (r: Maps)
        ensures
            r@ == spec_regions_from(text@, 0, RegionFilter::ReadWrite),
    {
        Self::regions(text, RegionFilter::ReadWrite)
    }

    /// The readable regions of the map text.
    pub fn r_regions(text: &[u8]) -> (r: Maps)
        ensures
            r@ == spec_regions_from(text@, 0, RegionFilter::Readable),
    {
        Self::regions(text, RegionFilter::Readable)
    }

    /// The readable, writeable and interesting regions: what a value
    /// scan sweeps.
    pub fn interesting_regions(text: &[u8]) -> (r: Maps)
        ensures
            r@ == spec_regions_from(text@, 0, RegionFilter::Interesting),
    {
        Self::regions(text, RegionFilter::Interesting)
    }

    /// Every region of the map text.
    pub fn all_regions(text: &[u8]) -> (r: Maps)
        ensures
            r@ == spec_regions_from(text@, 0, RegionFilter::All),
    {
        Self::regions(text, RegionFilter::All)
    }

    /// Whether the catalog is well formed: ascending and non-overlapping.
    /// The OS emits its map sorted; the embedder checks rather than
    /// trusts.
    pub fn is_sorted(&self) -> (r: bool)
        ensures
            r == catalog_wf(self@),
    {
        let n = self.0.len();
        let mut k: usize = 0;
        while k < n
            invariant
                0 <= k <= n,
                n == self.0@.len(),
                forall|i: int| 0 <= i < k ==> (#[trigger] self@[i]).wf(),
                forall|i: int|
                    0 <= i < k && i + 1 < n ==> #[trigger] self@[i].end <= self@[i + 1].start,
            decreases n - k,
        {
            if self.0[k].start >= self.0[k].end {
                assert(!self@[k as int].wf());
                return false;
            }
            if k + 1 < n {
                if self.0[k].end > self.0[k + 1].start {
                    assert(self@[k as int].end > self@[k + 1].start);
                    return false;
                }
            }
            k = k + 1;
        }
        proof {
            lemma_adjacent_disjoint(self@);
        }
        true
    }
}

/// Every region a parse yields is well formed and passes the filter.
proof fn lemma_regions_from_wf(text: Seq<u8>, pos: int, f: RegionFilter)
    ensures
        forall|i: int|
            0 <= i < spec_regions_from(text, pos, f).len() ==> (#[trigger] spec_regions_from(
                text,
                pos,
                f,
            )[i]).wf() && spec_passes(f, spec_regions_from(text, pos, f)[i]),
    decreases text.len() - pos,
{
    if 0 <= pos <= text.len() {
        match find_byte(text, 0x0a, pos) {
            Some(j) => {
                lemma_find_byte_range(text, 0x0a, pos);
                lemma_regions_from_wf(text, j + 1, f);
                lemma_line_wf(text.subrange(pos, j));
                let first_part = spec_line_region(text.subrange(pos, j), f);
                let rest = spec_regions_from(text, j + 1, f);
                let whole = spec_regions_from(text, pos, f);
                assert(whole == first_part + rest);
                assert forall|i: int| 0 <= i < whole.len() implies (#[trigger] whole[i]).wf()
                    && spec_passes(f, whole[i]) by {
                    if i < first_part.len() {
                        assert(whole[i] == first_part[i]);
                    } else {
                        assert(whole[i] == rest[i - first_part.len()]);
                    }
                }
            },
            None => {
                lemma_line_wf(text.subrange(pos, text.len() as int));
            },
        }
    }
}

/// A found byte lies inside the string.
proof fn lemma_find_byte_range(s: Seq<u8>, b: u8, pos: int)
    ensures
        find_byte(s, b, pos) matches Some(j) ==> pos <= j < s.len(),
    decreases s.len() - pos,
{
    if 0 <= pos < s.len() && s[pos] != b {
        lemma_find_byte_range(s, b, pos + 1);
    }
}

/// A parsed line always yields a region with a non-empty range.
proof fn lemma_line_wf(line: Seq<u8>)
    ensures
        spec_from_line(line) matches Some(m) ==> m.wf(),
{
    let toks = split_ws_from(line, 0);
    if spec_from_line(line) is Some {
        let d = find_byte(toks[0], 0x2d, 0).unwrap();
        let sh = toks[0].subrange(0, d);
        let eh = toks[0].subrange(d + 1, toks[0].len() as int);
        crate::num::lemma_hex_val_nonneg(sh);
        crate::num::lemma_hex_val_nonneg(eh);
    }
}

/// Pairwise-adjacent separation extends to any two regions of a well
/// ordered catalog.
proof fn lemma_chain(ms: Seq<RegionModel>, i: int, j: int)
    requires
        forall|k: int| 0 <= k < ms.len() ==> (#[trigger] ms[k]).wf(),
        forall|k: int| 0 <= k && k + 1 < ms.len() ==> #[trigger] ms[k].end <= ms[k + 1].start,
        0 <= i < j < ms.len(),
    ensures
        ms[i].end <= ms[j].start,
    decreases j - i,
{
    if j > i + 1 {
        lemma_chain(ms, i, j - 1);
    }
}

/// A catalog whose neighbours are separated is well formed.
proof fn lemma_adjacent_disjoint(ms: Seq<RegionModel>)
    requires
        forall|k: int| 0 <= k < ms.len() ==> (#[trigger] ms[k]).wf(),
        forall|k: int| 0 <= k && k + 1 < ms.len() ==> #[trigger] ms[k].end <= ms[k + 1].start,
    ensures
        catalog_wf(ms),
{
    assert forall|i: int, j: int| 0 <= i < j < ms.len() implies #[trigger] ms[i].end
        <= #[trigger] ms[j].start by {
        lemma_chain(ms, i, j);
    }
}

/// At most one region of a well formed catalog contains an address: the
/// catalog's regions are disjoint.
pub proof fn lemma_unique_containing(ms: Seq<RegionModel>, addr: u64, i: int, j: int)
    requires
        catalog_wf(ms),
        0 <= i < ms.len(),
        0 <= j < ms.len(),
        ms[i].contains(addr),
        ms[j].contains(addr),
    ensures
        i == j,
{
}

/// Finds the region of a well formed catalog that contains `addr`, by
/// binary search over the sorted regions.  Returns the unique containing
/// region, or `None` when no region contains the address — the same
/// answer a linear sweep of the catalog would give.
pub fn get_addr_region(regions: &[Region], addr: u64) -> (r: Option<&Region>)
    requires
        catalog_wf(regions@.map_values(|reg: Region| reg@)),
    ensures
        match r {
            Some(reg) => exists|i: int|
                0 <= i < regions@.len() && regions@[i]@ == reg@ && (#[trigger] regions@[i]@)
                    .contains(addr),
            None => forall|i: int|
                0 <= i < regions@.len() ==> !(#[trigger] regions@[i]@).contains(addr),
        },
{
    let ghost ms = regions@.map_values(|reg: Region| reg@);
    let mut lo: usize = 0;
    let mut hi: usize = regions.len();
    while lo < hi
        invariant
            0 <= lo <= hi <= regions@.len(),
            ms == regions@.map_values(|reg: Region| reg@),
            catalog_wf(ms),
            forall|i: int| 0 <= i < lo ==> !(#[trigger] ms[i]).contains(addr),
            forall|i: int| hi <= i < ms.len() ==> !(#[trigger] ms[i]).contains(addr),
        decreases hi - lo,
    {
        let mid = lo + (hi - lo) / 2;
        proof {
            assert(ms[mid as int] == regions@[mid as int]@);
        }
        if regions[mid].end <= addr {
            proof {
                assert forall|i: int| 0 <= i <= mid implies !(#[trigger] ms[i]).contains(addr) by {
                    if i < mid {
                        assert(ms[i].end <= ms[mid as int].start);
                        assert(ms[mid as int].wf());
                    }
                }
            }
            lo = mid + 1;
        } else if regions[mid].start > addr {
            proof {
                assert forall|i: int| mid <= i < ms.len() implies !(#[trigger] ms[i]).contains(
                    addr,
                ) by {
                    if i > mid {
                        assert(ms[mid as int].end <= ms[i].start);
                        assert(ms[mid as int].wf());
                    }
                }
            }
            hi = mid;
        } else {
            assert(ms[mid as int].contains(addr));
            return Some(&regions[mid]);
        }
    }
    proof {
        assert forall|i: int| 0 <= i < regions@.len() implies !(#[trigger] regions@[i]@).contains(
            addr,
        ) by {
            assert(ms[i] == regions@[i]@);
            assert(!ms[i].contains(addr));
        }
    }
    None
}


/// The catalog's regions clipped to the half-open range `[lo, hi)`,
/// from index `k` on; empty results of clipping are dropped.
pub open spec fn clip_from(ms: Seq<RegionModel>, k: int, lo: u64, hi: u64) -> Seq<(u64, u64)>
    decreases ms.len() - k,
{
    if k < 0 || k >= ms.len() {
        Seq::empty()
    } else {
        let s = if ms[k].start > lo {
            ms[k].start
        } else {
            lo
        };
        let e = if ms[k].end < hi {
            ms[k].end
        } else {
            hi
        };
        if s < e {
            seq![(s, e)] + clip_from(ms, k + 1, lo, hi)
        } else {
            clip_from(ms, k + 1, lo, hi)
        }
    }
}

/// Every clipped interval is non-empty.
pub proof fn lemma_clip_valid(ms: Seq<RegionModel>, k: int, lo: u64, hi: u64)
    ensures
        crate::plan::valid_intervals(clip_from(ms, k, lo, hi)),
    decreases ms.len() - k,
{
    if 0 <= k < ms.len() {
        lemma_clip_valid(ms, k + 1, lo, hi);
        let s = if ms[k].start > lo {
            ms[k].start
        } else {
            lo
        };
        let e = if ms[k].end < hi {
            ms[k].end
        } else {
            hi
        };
        let rest = clip_from(ms, k + 1, lo, hi);
        if s < e {
            let whole = clip_from(ms, k, lo, hi);
            assert(whole == seq![(s, e)] + rest);
            assert forall|i: int| 0 <= i < whole.len() implies (#[trigger] whole[i]).0
                < whole[i].1 by {
                if i > 0 {
                    assert(whole[i] == rest[i - 1]);
                }
            }
        }
    }
}

impl Maps {
    /// Clips the catalog to the commanded address range, dropping what
    /// falls outside.
    fn clip(&self, lo: u64, hi: u64) -> (r: Vec<(u64, u64)>)
        ensures
            r@ == clip_from(self@, 0, lo, hi),
            crate::plan::valid_intervals(r@),
    {
        proof {
            lemma_clip_valid(self@, 0, lo, hi);
        }
        let n = self.0.len();
        let mut out: Vec<(u64, u64)> = Vec::new();
        let mut k: usize = 0;
        while k < n
            invariant
                0 <= k <= n,
                n == self.0@.len(),
                clip_from(self@, 0, lo, hi) == out@ + clip_from(self@, k as int, lo, hi),
            decreases n - k,
        {
            let ghost out0 = out@;
            let rs = self.0[k].start;
            let re = self.0[k].end;
            let s = if rs > lo {
                rs
            } else {
                lo
            };
            let e = if re < hi {
                re
            } else {
                hi
            };
            if s < e {
                out.push((s, e));
                proof {
                    assert(out@ =~= out0 + seq![(s, e)]);
                    assert(out@ + clip_from(self@, k + 1, lo, hi) =~= out0 + clip_from(
                        self@,
                        k as int,
                        lo,
                        hi,
                    ));
                }
            } else {
                proof {
                    assert(out@ + clip_from(self@, k + 1, lo, hi) =~= out0 + clip_from(
                        self@,
                        k as int,
                        lo,
                        hi,
                    ));
                }
            }
            k = k + 1;
        }
        proof {
            assert(out@ + clip_from(self@, k as int, lo, hi) =~= out@);
        }
        out
    }

    /// Plans the read batches for this catalog over the commanded range:
    /// regions are clipped to `[start, end)`, and the requests of the
    /// resulting batches reconstruct the clipped regions exactly, no
    /// batch asking for more than `chunk_size` bytes or holding more
    /// than `iov_max` requests (see [`crate::plan::lemma_plan_covers`]
    /// and [`crate::plan::lemma_plan_bounds`]).  The caller works
    /// through one batch before the next.
    pub fn chunks(&self, start: u64, end: u64, chunk_size: usize, iov_max: usize) -> (r: Vec<
        Vec<crate::remote::IoVec>,
    >)
        requires
            1 <= chunk_size,
            1 <= iov_max,
        ensures
            crate::plan::batches_model(r@) == crate::plan::plan_spec(
                clip_from(self@, 0, start, end),
                chunk_size as int,
                iov_max as int,
            ),
    {
        let pairs = self.clip(start, end);
        crate::plan::plan_exec(&pairs, chunk_size, iov_max)
    }
}

} // verus!
