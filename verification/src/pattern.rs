//! The wildcard pattern engine.
//!
//! A pattern is a sequence of tokens: two-hex-digit byte literals and
//! whole-byte wildcards (`??`).  It is decomposed into anchors — the
//! maximal runs of known bytes, each carrying its offset from the
//! pattern's start.  A buffer matches at an offset exactly when every
//! anchor's bytes occur at their relative position; wildcard positions
//! are free.  The search finds every literal occurrence of the
//! highest-scoring anchor by fast substring search and verifies the
//! remaining anchors at each, so the scoring heuristic only picks the
//! anchor least likely to occur — it never changes what matches.

use vstd::prelude::*;
use crate::Error;

verus! {

/// True when `needle` occurs in `hay` at position `i`.
pub open spec fn occurs_at(hay: Seq<u8>, needle: Seq<u8>, i: int) -> bool {
    0 <= i && i + needle.len() <= hay.len() && hay.subrange(i, i + needle.len()) == needle
}

/// Relies on `memchr::memmem::find`: the position of the leftmost
/// occurrence of `needle` in `hay`, or `None` when `needle` never
/// occurs.  An empty needle occurs at position zero.
#[verifier::external_body]
fn find_sub(hay: &[u8], needle: &[u8]) -> (r: Option<usize>)
    ensures
        match r {
            Some(i) => occurs_at(hay@, needle@, i as int) && forall|j: int|
                0 <= j < i ==> !occurs_at(hay@, needle@, j),
            None => forall|j: int| !occurs_at(hay@, needle@, j),
        },
{
    memchr::memmem::find(hay, needle)
}

/// Whether `pat` occurs in `mem` at position `pos`, by direct
/// comparison.
pub fn bytes_at(mem: &[u8], pos: usize, pat: &[u8]) -> (r: bool)
    ensures
        r == occurs_at(mem@, pat@, pos as int),
{
    if mem.len() < pat.len() || pos > mem.len() - pat.len() {
        return false;
    }
    let ml = mem.len();
    let mut i: usize = 0;
    while i < pat.len()
        invariant
            0 <= i <= pat@.len(),
            ml == mem@.len(),
            pos + pat@.len() <= ml,
            forall|j: int| 0 <= j < i ==> mem@[pos + j] == pat@[j],
        decreases pat@.len() - i,
    {
        if mem[pos + i] != pat[i] {
            assert(mem@.subrange(pos as int, pos + pat@.len())[i as int] != pat@[i as int]);
            return false;
        }
        i = i + 1;
    }
    proof {
        assert(mem@.subrange(pos as int, pos + pat@.len()) =~= pat@);
    }
    true
}

/// A maximal run of known bytes within a pattern, at its offset from
/// the pattern's start.
#[derive(Debug, Clone)]
pub struct Anchor {
    /// Offset of the run from the pattern's start.
    pub offset: usize,
    /// The run's bytes; never empty.
    pub bytes: Vec<u8>,
}

/// The mathematical model of an [`Anchor`].
pub struct AnchorModel {
    /// Offset of the run from the pattern's start.
    pub offset: int,
    /// The run's bytes.
    pub bytes: Seq<u8>,
}

impl View for Anchor {
    type V = AnchorModel;

    open spec fn view(&self) -> AnchorModel {
        AnchorModel { offset: self.offset as int, bytes: self.bytes@ }
    }
}

impl Anchor {
    /// Wraps a run, declining an empty one: an anchor must pin at least
    /// one byte.
    pub fn new(offset: usize, bytes: Vec<u8>) -> (r: Option<Anchor>)
        ensures
            match r {
                Some(a) => bytes@.len() > 0 && a@.offset == offset && a@.bytes == bytes@,
                None => bytes@.len() == 0,
            },
    {
        if bytes.len() == 0 {
            None
        } else {
            Some(Anchor { offset, bytes })
        }
    }
}

/// Whether the buffer matches the anchors at offset `o`: every anchor's
/// bytes occur at its relative position.
pub open spec fn spec_pattern_match(anchors: Seq<AnchorModel>, mem: Seq<u8>, o: int) -> bool {
    forall|k: int|
        0 <= k < anchors.len() ==> occurs_at(
            mem,
            (#[trigger] anchors[k]).bytes,
            o + anchors[k].offset,
        )
}

/// A parsed pattern: its anchors in pattern order, and the index of the
/// anchor the search drives on.
#[derive(Debug, Clone)]
pub struct Pattern {
    /// The anchors, in pattern order.
    pub anchors: Vec<Anchor>,
    /// Index of the search anchor.
    pub best: usize,
}

impl Pattern {
    /// The models of the anchors.
    pub open spec fn models(self) -> Seq<AnchorModel> {
        self.anchors@.map_values(|a: Anchor| a@)
    }

    /// A usable pattern has at least one anchor, every anchor pins at
    /// least one byte, and the search anchor exists.
    pub open spec fn wf(self) -> bool {
        &&& self.anchors@.len() >= 1
        &&& self.best < self.anchors@.len()
        &&& forall|k: int|
            0 <= k < self.anchors@.len() ==> (#[trigger] self.anchors@[k])@.bytes.len() >= 1
    }

    /// Finds every offset at which the buffer matches the pattern,
    /// ascending: exactly those offsets where every anchor's bytes occur
    /// at their relative position.
    #[verifier::loop_isolation(false)]
    pub fn find_matches(&self, mem: &[u8]) -> (r: Vec<usize>)
        requires
            self.wf(),
        ensures
            forall|o: usize| r@.contains(o) <==> spec_pattern_match(self.models(), mem@, o as int),
            forall|i: int, j: int| 0 <= i < j < r@.len() ==> r@[i] < r@[j],
    {
        let ghost ms = self.models();
        let best = self.best;
        let off_b = self.anchors[best].offset;
        let ghost needle = self.anchors@[best as int]@.bytes;
        let mut out: Vec<usize> = Vec::new();
        let mut pos: usize = 0;
        loop
            invariant
                0 <= pos <= mem@.len() + 1,
                needle == ms[best as int].bytes,
                needle.len() >= 1,
                off_b == ms[best as int].offset,
                // soundness: everything emitted is a match, placed below
                // the cursor
                forall|i: int|
                    0 <= i < out@.len() ==> spec_pattern_match(ms, mem@, #[trigger] out@[i] as int)
                        && out@[i] + off_b < pos,
                // completeness: every match below the cursor is emitted
                forall|o: usize|
                    spec_pattern_match(ms, mem@, o as int) && o + off_b < pos ==> out@.contains(o),
                forall|i: int, j: int| 0 <= i < j < out@.len() ==> out@[i] < out@[j],
            decreases mem@.len() + 1 - pos,
        {
            if pos > mem.len() {
                break ;
            }
            let ghost out_head = out@;
            let found = find_sub(&mem[pos..mem.len()], &self.anchors[best].bytes);
            match found {
                None => {
                    proof {
                        assert forall|o: usize|
                            spec_pattern_match(ms, mem@, o as int) implies out@.contains(o) by {
                            if o + off_b >= pos {
                                assert(occurs_at(mem@, needle, o + off_b));
                                let slice = mem@.subrange(pos as int, mem@.len() as int);
                                assert(occurs_at(slice, needle, o + off_b - pos)) by {
                                    assert(slice.subrange(
                                        o + off_b - pos,
                                        o + off_b - pos + needle.len(),
                                    ) =~= mem@.subrange(o + off_b, o + off_b + needle.len()));
                                }
                            }
                        }
                    }
                    break ;
                },
                Some(d) => {
                    let p = pos + d;
                    proof {
                        let slice = mem@.subrange(pos as int, mem@.len() as int);
                        assert(occurs_at(slice, needle, d as int));
                        assert(occurs_at(mem@, needle, p as int)) by {
                            assert(mem@.subrange(p as int, p + needle.len()) =~= slice.subrange(
                                d as int,
                                d + needle.len(),
                            ));
                        }
                        // no occurrence of the search anchor between the
                        // cursor and the found position
                        assert forall|q: int| pos <= q < p implies !occurs_at(mem@, needle, q) by {
                            if occurs_at(mem@, needle, q) {
                                assert(occurs_at(slice, needle, q - pos)) by {
                                    assert(slice.subrange(q - pos, q - pos + needle.len())
                                        =~= mem@.subrange(q, q + needle.len()));
                                }
                            }
                        }
                    }
                    let matched: bool;
                    if p < off_b {
                        matched = false;
                        proof {
                            assert(!spec_pattern_match(ms, mem@, p - off_b) || p - off_b < 0);
                        }
                    } else {
                        let o = p - off_b;
                        let mut ok = true;
                        let mut k: usize = 0;
                        while k < self.anchors.len()
                            invariant
                                0 <= k <= ms.len(),
                                ok ==> forall|k2: int|
                                    0 <= k2 < k ==> occurs_at(
                                        mem@,
                                        (#[trigger] ms[k2]).bytes,
                                        o + ms[k2].offset,
                                    ),
                                !ok ==> !spec_pattern_match(ms, mem@, o as int),
                            decreases ms.len() - k,
                        {
                            if ok {
                                let hit = bytes_at(
                                    mem,
                                    if o <= usize::MAX - self.anchors[k].offset {
                                        o + self.anchors[k].offset
                                    } else {
                                        o
                                    },
                                    self.anchors[k].bytes.as_slice(),
                                );
                                let fits = o <= usize::MAX - self.anchors[k].offset;
                                if !fits || !hit {
                                    ok = false;
                                    proof {
                                        if !fits {
                                            assert(o + ms[k as int].offset > usize::MAX
                                                >= mem@.len());
                                            assert(!occurs_at(
                                                mem@,
                                                ms[k as int].bytes,
                                                o + ms[k as int].offset,
                                            ));
                                        } else {
                                            assert(!occurs_at(
                                                mem@,
                                                ms[k as int].bytes,
                                                o + ms[k as int].offset,
                                            ));
                                        }
                                    }
                                }
                            }
                            k = k + 1;
                        }
                        matched = ok;
                        if matched {
                            proof {
                                assert(spec_pattern_match(ms, mem@, o as int));
                                assert forall|i: int| 0 <= i < out@.len() implies out@[i] < o by {
                                    assert(out@[i] + off_b < pos <= p);
                                }
                            }
                            out.push(o);
                        }
                    }
                    proof {
                        let newpos = p + 1;
                        assert forall|o2: usize|
                            spec_pattern_match(ms, mem@, o2 as int) && o2 + off_b
                                < newpos implies out@.contains(o2) by {
                            if o2 + off_b >= pos {
                                // the search anchor occurs at o2 + off_b in
                                // [pos, p]; by leftmostness it is p itself
                                assert(occurs_at(mem@, needle, o2 + off_b));
                                assert(o2 + off_b == p);
                                assert(out@[out@.len() - 1] == o2);
                            } else {
                                // decided before this iteration; a push
                                // keeps every earlier element
                                assert(out_head.contains(o2));
                                let i = choose|i: int|
                                    0 <= i < out_head.len() && out_head[i] == o2;
                                assert(out@[i] == o2);
                            }
                        }
                    }
                    pos = p + 1;
                },
            }
        }
        proof {
            assert forall|o: usize|
                out@.contains(o) implies spec_pattern_match(ms, mem@, o as int) by {
                let i = choose|i: int| 0 <= i < out@.len() && out@[i] == o;
            }
        }
        out
    }
}


/// The fixed-point scale of the scoring arithmetic: scores carry ten
/// fractional bits.
pub open spec fn scale() -> int {
    1024
}

/// How often byte `b` occurs in `s`.
pub open spec fn count_byte(s: Seq<u8>, b: u8) -> int
    decreases s.len(),
{
    if s.len() == 0 {
        0
    } else {
        count_byte(s.drop_last(), b) + if s.last() == b {
            1int
        } else {
            0int
        }
    }
}

/// Two raised to `k`.
pub open spec fn pow2(k: nat) -> int
    decreases k,
{
    if k == 0 {
        1
    } else {
        2 * pow2((k - 1) as nat)
    }
}

/// The floor of the base-two logarithm.
pub open spec fn floor_lg(x: int) -> nat
    decreases x,
{
    if x < 2 {
        0
    } else {
        1 + floor_lg(x / 2)
    }
}

/// A scaled base-two logarithm on the integers: the floor logarithm
/// with a linear interpolation between powers of two, and zero below
/// two.  Exact at powers of two — in particular zero at one — which is
/// all the scoring laws lean on.
pub open spec fn spec_lg(x: int) -> int {
    if x < 2 {
        0
    } else {
        scale() * floor_lg(x) + scale() * (x - pow2(floor_lg(x))) / pow2(floor_lg(x))
    }
}

/// The number of distinct byte values of `s` among values `lo` and up.
pub open spec fn unique_from(s: Seq<u8>, lo: int) -> int
    decreases 256 - lo,
{
    if lo < 0 || lo >= 256 {
        0
    } else {
        (if count_byte(s, lo as u8) > 0 {
            1int
        } else {
            0int
        }) + unique_from(s, lo + 1)
    }
}

/// The entropy numerator of `s` among values `lo` and up: each value's
/// count weighted by its scaled logarithm.
pub open spec fn wsum_from(s: Seq<u8>, lo: int) -> int
    decreases 256 - lo,
{
    if lo < 0 || lo >= 256 {
        0
    } else {
        count_byte(s, lo as u8) * spec_lg(count_byte(s, lo as u8)) + wsum_from(s, lo + 1)
    }
}

/// The largest per-value count of `s` among values `lo` and up.
pub open spec fn max_count_from(s: Seq<u8>, lo: int) -> int
    decreases 256 - lo,
{
    if lo < 0 || lo >= 256 {
        0
    } else {
        let rest = max_count_from(s, lo + 1);
        if count_byte(s, lo as u8) > rest {
            count_byte(s, lo as u8)
        } else {
            rest
        }
    }
}

/// The scaled entropy estimate of `s`: the logarithm of the length less
/// the count-weighted average logarithm of the counts.
pub open spec fn spec_entropy(s: Seq<u8>) -> int {
    spec_lg(s.len() as int) - wsum_from(s, 0) / s.len() as int
}

/// The anchor score, in fixed point: three halves of the length, plus
/// twice the entropy estimate, plus three times the share of distinct
/// byte values, less five when all bytes are one value and less three
/// when one value fills over nine tenths of the anchor.  A higher score
/// marks an anchor less likely to occur by chance.
pub open spec fn spec_score(s: Seq<u8>) -> int {
    3 * scale() * s.len() / 2 + 2 * spec_entropy(s) + 3 * scale() * unique_from(s, 0) / (
    s.len() as int) - (if unique_from(s, 0) == 1 {
        5 * scale()
    } else {
        0
    }) - (if 10 * max_count_from(s, 0) > 9 * s.len() {
        3 * scale()
    } else {
        0
    })
}

/// Two to the floor logarithm brackets its argument.
proof fn lemma_pow2_bracket(x: int)
    requires
        x >= 1,
    ensures
        pow2(floor_lg(x)) >= 1,
        pow2(floor_lg(x)) <= x,
        x < 2 * pow2(floor_lg(x)),
    decreases x,
{
    if x < 2 {
    } else {
        lemma_pow2_bracket(x / 2);
    }
}

/// The scaled logarithm is never negative, and zero at one.
proof fn lemma_lg_nonneg(x: int)
    ensures
        spec_lg(x) >= 0,
        x <= 1 ==> spec_lg(x) == 0,
{
    if x >= 2 {
        lemma_pow2_bracket(x);
        let p = pow2(floor_lg(x));
        assert(scale() * (x - p) >= 0) by (nonlinear_arith)
            requires
                x >= p,
        ;
        assert(scale() * (x - p) / p >= 0) by (nonlinear_arith)
            requires
                scale() * (x - p) >= 0,
                p >= 1,
        ;
    }
}

/// Computes the scaled logarithm of a count or length that fits the
/// scoring range.
#[verifier::loop_isolation(false)]
fn lg_fixed(x: u64) -> (r: u64)
    requires
        1 <= x <= 0x100_0000,
    ensures
        r as int == spec_lg(x as int),
        r <= 25 * 1024,
{
    proof {
        lemma_pow2_bracket(x as int);
    }
    let mut v: u64 = x;
    let mut k: u64 = 0;
    let mut p: u64 = 1;
    while v >= 2
        invariant
            1 <= v <= x,
            p as int == pow2(k as nat),
            p <= x,
            floor_lg(x as int) == k as nat + floor_lg(v as int),
            k <= 24,
        decreases v,
    {
        proof {
            assert(floor_lg(v as int) == 1 + floor_lg(v as int / 2));
            assert(floor_lg(x as int) >= k as nat + 1);
            lemma_pow2_mono(k as nat + 1, floor_lg(x as int));
            assert(pow2(k as nat + 1) <= pow2(floor_lg(x as int)) <= x as int);
            if k + 1 > 24 {
                assert(pow2(25) == 0x200_0000) by {
                    reveal_with_fuel(pow2, 27);
                }
                lemma_pow2_mono(25, k as nat + 1);
                assert(false);
            }
        }
        v = v / 2;
        k = k + 1;
        p = p * 2;
    }
    proof {
        assert(floor_lg(v as int) == 0);
        assert(floor_lg(x as int) == k as nat);
        assert(pow2(floor_lg(x as int)) <= x as int);
        assert(x < 2 * pow2(floor_lg(x as int)));
    }
    let frac = (1024u64 * (x - p)) / p;
    proof {
        assert(frac as int == scale() * (x as int - p as int) / p as int);
        assert(frac <= 1023) by (nonlinear_arith)
            requires
                frac as int == 1024 * (x as int - p as int) / p as int,
                p as int <= x as int,
                x < 2 * p as int,
                p >= 1,
        ;
        if x == 1 {
            assert(frac == 0);
        }
    }
    1024 * k + frac
}

/// The power function is monotone.
proof fn lemma_pow2_mono(a: nat, b: nat)
    requires
        a <= b,
    ensures
        pow2(a) <= pow2(b),
        pow2(a) >= 1,
    decreases b,
{
    if a < b {
        lemma_pow2_mono(a, (b - 1) as nat);
    } else if a > 0 {
        lemma_pow2_mono((a - 1) as nat, (a - 1) as nat);
    }
}


/// A count is never negative.
proof fn lemma_count_nonneg(s: Seq<u8>, b: u8)
    ensures
        count_byte(s, b) >= 0,
    decreases s.len(),
{
    if s.len() > 0 {
        lemma_count_nonneg(s.drop_last(), b);
    }
}

/// The largest count is never negative.
proof fn lemma_max_count_nonneg(s: Seq<u8>, lo: int)
    ensures
        max_count_from(s, lo) >= 0,
    decreases 256 - lo,
{
    if 0 <= lo < 256 {
        lemma_max_count_nonneg(s, lo + 1);
    }
}

/// A count over a prefix never exceeds the count over the whole.
proof fn lemma_count_prefix(s: Seq<u8>, i: int, b: u8)
    requires
        0 <= i <= s.len(),
    ensures
        count_byte(s.subrange(0, i), b) <= count_byte(s, b),
    decreases s.len() - i,
{
    if i < s.len() {
        let t = s.subrange(0, i + 1);
        assert(t.drop_last() =~= s.subrange(0, i));
        assert(t.last() == s[i]);
        lemma_count_prefix(s, i + 1, b);
        assert(s.subrange(0, s.len() as int) =~= s);
    } else {
        assert(s.subrange(0, i) =~= s);
    }
}

/// The per-value counts over a suffix of the value range, summed.
pub open spec fn sum_counts(s: Seq<u8>, lo: int) -> int
    decreases 256 - lo,
{
    if lo < 0 || lo >= 256 {
        0
    } else {
        count_byte(s, lo as u8) + sum_counts(s, lo + 1)
    }
}

/// Appending one byte raises exactly its value's count.
proof fn lemma_sum_step(s: Seq<u8>, lo: int)
    requires
        s.len() >= 1,
    ensures
        sum_counts(s, lo) == sum_counts(s.drop_last(), lo) + if 0 <= lo <= s.last() as int {
            1int
        } else {
            0int
        },
    decreases 256 - lo,
{
    if 0 <= lo < 256 {
        lemma_sum_step(s, lo + 1);
    }
}

/// The counts of all values sum to the length.
proof fn lemma_sum_counts(s: Seq<u8>)
    ensures
        sum_counts(s, 0) == s.len(),
    decreases s.len(),
{
    if s.len() == 0 {
        lemma_sum_empty(s, 0);
    } else {
        lemma_sum_counts(s.drop_last());
        lemma_sum_step(s, 0);
    }
}

/// An empty string has no counts.
proof fn lemma_sum_empty(s: Seq<u8>, lo: int)
    requires
        s.len() == 0,
    ensures
        sum_counts(s, lo) == 0,
    decreases 256 - lo,
{
    if 0 <= lo < 256 {
        lemma_sum_empty(s, lo + 1);
    }
}

/// Counts bounded per value bound the sum.
proof fn lemma_sum_upper(s: Seq<u8>, lo: int, cap: int)
    requires
        0 <= lo <= 256,
        forall|b: u8| #[trigger] count_byte(s, b) <= cap,
        cap >= 0,
    ensures
        sum_counts(s, lo) <= (256 - lo) * cap,
    decreases 256 - lo,
{
    if lo < 256 {
        lemma_sum_upper(s, lo + 1, cap);
        assert((256 - lo) * cap == (256 - (lo + 1)) * cap + cap) by (nonlinear_arith);
    }
}

impl Anchor {
    /// The per-value occurrence counts of the anchor's bytes, or the
    /// overflow error when some value occurs more often than a counter
    /// holds.
    #[verifier::loop_isolation(false)]
    fn histogram(&self) -> (r: crate::Result<Vec<u16>>)
        ensures
            match r {
                Ok(counts) => {
                    &&& counts@.len() == 256
                    &&& forall|b: int|
                        0 <= b < 256 ==> (#[trigger] counts@[b]) as int == count_byte(
                            self@.bytes,
                            b as u8,
                        )
                },
                Err(e) => {
                    &&& e == Error::AnchorCounterOverflow
                    &&& exists|b: u8| count_byte(self@.bytes, b) > u16::MAX
                },
            },
    {
        let ghost bs = self.bytes@;
        let mut counts: Vec<u16> = Vec::new();
        let mut z: usize = 0;
        while z < 256
            invariant
                counts@.len() == z <= 256,
                forall|b: int| 0 <= b < z ==> (#[trigger] counts@[b]) == 0,
            decreases 256 - z,
        {
            counts.push(0);
            z = z + 1;
        }
        proof {
            assert forall|b: int| 0 <= b < 256 implies (#[trigger] counts@[b]) as int
                == count_byte(bs.subrange(0, 0), b as u8) by {
                assert(bs.subrange(0, 0) =~= Seq::<u8>::empty());
            }
        }
        let n = self.bytes.len();
        let mut i: usize = 0;
        while i < n
            invariant
                0 <= i <= n,
                n == bs.len(),
                counts@.len() == 256,
                forall|b: int|
                    0 <= b < 256 ==> (#[trigger] counts@[b]) as int == count_byte(
                        bs.subrange(0, i as int),
                        b as u8,
                    ),
            decreases n - i,
        {
            let v = self.bytes[i] as usize;
            proof {
                let t = bs.subrange(0, i + 1);
                assert(t.drop_last() =~= bs.subrange(0, i as int));
                assert(t.last() == bs[i as int]);
            }
            match counts[v].checked_add(1) {
                Some(c) => {
                    counts.set(v, c);
                },
                None => {
                    proof {
                        lemma_count_prefix(bs, i + 1, bs[i as int]);
                        assert(count_byte(bs, bs[i as int]) > u16::MAX);
                        assert(exists|bb: u8| count_byte(self@.bytes, bb) > u16::MAX) by {
                            assert(count_byte(self@.bytes, bs[i as int]) > u16::MAX);
                        }
                    }
                    return Err(Error::AnchorCounterOverflow);
                },
            }
            i = i + 1;
        }
        proof {
            assert(bs.subrange(0, n as int) =~= bs);
        }
        Ok(counts)
    }

    /// The anchor's score, or the overflow error when a per-value
    /// occurrence counter would overflow; see [`spec_score`].
    #[verifier::loop_isolation(false)]
    pub fn score(&self) -> (r: crate::Result<i64>)
        requires
            self@.bytes.len() >= 1,
        ensures
            match r {
                Ok(v) => v as int == spec_score(self@.bytes),
                Err(e) => {
                    &&& e == Error::AnchorCounterOverflow
                    &&& exists|b: u8| count_byte(self@.bytes, b) > u16::MAX
                },
            },
    {
        let ghost bs = self.bytes@;
        let counts = match self.histogram() {
            Ok(c) => c,
            Err(e) => {
                return Err(e);
            },
        };
        proof {
            lemma_sum_counts(bs);
            assert forall|bb: u8| count_byte(bs, bb) <= u16::MAX as int by {
                assert(counts@[bb as int] as int == count_byte(bs, bb));
            }
            lemma_sum_upper(bs, 0, u16::MAX as int);
            assert(bs.len() <= 256 * 65535);
            lemma_max_count_nonneg(bs, 0);
        }
        let len64: u64 = self.bytes.len() as u64;
        let mut unique: u64 = 0;
        let mut wsum: u64 = 0;
        let mut maxc: u64 = 0;
        let mut b: usize = 0;
        while b < 256
            invariant
                0 <= b <= 256,
                counts@.len() == 256,
                forall|c: int|
                    0 <= c < 256 ==> (#[trigger] counts@[c]) as int == count_byte(bs, c as u8),
                unique as int == unique_from(bs, 0) - unique_from(bs, b as int),
                wsum as int == wsum_from(bs, 0) - wsum_from(bs, b as int),
                (if maxc as int > max_count_from(bs, b as int) {
                    maxc as int
                } else {
                    max_count_from(bs, b as int)
                }) == max_count_from(bs, 0),
                unique <= b as u64,
                wsum <= (b as u64) * 0x6800_0000,
                maxc <= 0xFFFF,
            decreases 256 - b,
        {
            let c = counts[b];
            proof {
                lemma_max_count_nonneg(bs, b as int + 1);
                lemma_count_nonneg(bs, b as u8);
            }
            let mut term: u64 = 0;
            if c > 0 {
                unique = unique + 1;
                let lg = lg_fixed(c as u64);
                proof {
                    assert((c as int) * (lg as int) <= 0x6800_0000) by (nonlinear_arith)
                        requires
                            c <= 0xFFFF,
                            lg <= 25 * 1024,
                    ;
                }
                term = (c as u64) * lg;
                proof {
                    assert(term as int == count_byte(bs, b as u8) * spec_lg(
                        count_byte(bs, b as u8),
                    ));
                }
            } else {
                proof {
                    assert(count_byte(bs, b as u8) * spec_lg(count_byte(bs, b as u8)) == 0);
                }
            }
            proof {
                assert((b as u64 + 1) * 0x6800_0000 == (b as u64) * 0x6800_0000 + 0x6800_0000)
                    by (nonlinear_arith);
            }
            wsum = wsum + term;
            if (c as u64) > maxc {
                maxc = c as u64;
            }
            b = b + 1;
        }
        proof {
            assert(unique as int == unique_from(bs, 0));
            assert(wsum as int == wsum_from(bs, 0));
            assert(maxc as int == max_count_from(bs, 0));
            assert(1 <= len64 <= 0xFF_FF00);
        }
        let lg_len = lg_fixed(len64);
        let wdiv = wsum / len64;
        let entropy: i64 = lg_len as i64 - wdiv as i64;
        let base: i64 = 3 * 1024 * (len64 as i64) / 2;
        let uniq_term: i64 = 3 * 1024 * (unique as i64) / (len64 as i64);
        let pen1: i64 = if unique == 1 {
            5 * 1024
        } else {
            0
        };
        let pen2: i64 = if 10 * maxc > 9 * len64 {
            3 * 1024
        } else {
            0
        };
        let score = base + 2 * entropy + uniq_term - pen1 - pen2;
        proof {
            assert(wdiv as int == wsum_from(bs, 0) / bs.len() as int);
            assert(entropy as int == spec_entropy(bs));
            assert(base as int == 3 * scale() * bs.len() as int / 2);
            assert(uniq_term as int == 3 * scale() * unique_from(bs, 0) / bs.len() as int);
            assert(score as int == spec_score(bs));
        }
        Ok(score)
    }
}


/// True for the whole-byte wildcard token `??`.
pub open spec fn is_wildcard(t: Seq<u8>) -> bool {
    t =~= seq![0x3fu8, 0x3fu8]
}

/// The byte a two-hex-digit token denotes, or nothing.
pub open spec fn token_byte(t: Seq<u8>) -> Option<u8> {
    if t.len() == 2 && crate::num::is_hex_digit(t[0]) && crate::num::is_hex_digit(t[1]) {
        Some((crate::num::hex_digit_val(t[0]) * 16 + crate::num::hex_digit_val(t[1])) as u8)
    } else {
        None
    }
}

/// The anchors of a pattern's tokens from index `i` on, given the run
/// of known bytes currently open (`cur`, begun at token `start`) and
/// the anchors already closed (`acc`): a wildcard closes the open run,
/// a byte token extends it, anything else is a malformed token, and a
/// pattern that closes no anchor at all is declined.
pub open spec fn spec_anchors(
    toks: Seq<Seq<u8>>,
    i: int,
    start: int,
    cur: Seq<u8>,
    acc: Seq<AnchorModel>,
) -> crate::Result<Seq<AnchorModel>>
    decreases toks.len() - i,
{
    if i < 0 || i > toks.len() {
        Err(Error::AllWildcardPattern)
    } else if i == toks.len() {
        let done = if cur.len() > 0 {
            acc + seq![AnchorModel { offset: start, bytes: cur }]
        } else {
            acc
        };
        if done.len() == 0 {
            Err(Error::AllWildcardPattern)
        } else {
            Ok(done)
        }
    } else if is_wildcard(toks[i]) {
        spec_anchors(
            toks,
            i + 1,
            0,
            Seq::empty(),
            if cur.len() > 0 {
                acc + seq![AnchorModel { offset: start, bytes: cur }]
            } else {
                acc
            },
        )
    } else {
        match token_byte(toks[i]) {
            Some(v) => spec_anchors(
                toks,
                i + 1,
                if cur.len() == 0 {
                    i
                } else {
                    start
                },
                cur.push(v),
                acc,
            ),
            None => Err(Error::InvalidPatternByte { index: i as usize }),
        }
    }
}

impl Pattern {
    /// Parses the pattern tokens into anchors and scores them, marking
    /// the anchor of the highest score — ties to the earliest — as the
    /// search anchor.  Declines a malformed byte token, an all-wildcard
    /// or empty pattern, and an anchor so long that an occurrence
    /// counter would overflow.
    #[verifier::loop_isolation(false)]
    pub fn parse_scored_anchors(tokens: &Vec<Vec<u8>>) -> (r: crate::Result<Pattern>)
        ensures
            match r {
                Ok(p) => {
                    &&& p.wf()
                    &&& spec_anchors(
                        crate::proc_maps::views(tokens@),
                        0,
                        0,
                        Seq::empty(),
                        Seq::empty(),
                    ) == Ok::<_, Error>(p.models())
                    &&& forall|k: int|
                        0 <= k < p.models().len() ==> spec_score(
                            (#[trigger] p.models()[k]).bytes,
                        ) <= spec_score(p.models()[p.best as int].bytes)
                },
                Err(e) => {
                    ||| spec_anchors(
                        crate::proc_maps::views(tokens@),
                        0,
                        0,
                        Seq::empty(),
                        Seq::empty(),
                    ) == crate::Result::<Seq<AnchorModel>>::Err(e)
                    ||| {
                        let parsed = spec_anchors(
                            crate::proc_maps::views(tokens@),
                            0,
                            0,
                            Seq::empty(),
                            Seq::empty(),
                        );
                        &&& e == Error::AnchorCounterOverflow
                        &&& parsed is Ok
                        &&& exists|k: int, b: u8|
                            0 <= k < parsed.unwrap().len() && #[trigger] count_byte(
                                parsed.unwrap()[k].bytes,
                                b,
                            ) > u16::MAX
                    }
                },
            },
    {
        let ghost tv = crate::proc_maps::views(tokens@);
        let n = tokens.len();
        let mut anchors: Vec<Anchor> = Vec::new();
        let mut cur: Vec<u8> = Vec::new();
        let mut start: usize = 0;
        let mut i: usize = 0;
        proof {
            assert(cur@ =~= Seq::<u8>::empty());
            assert(anchors@.map_values(|a: Anchor| a@) =~= Seq::<AnchorModel>::empty());
        }
        while i < n
            invariant
                0 <= i <= n,
                n == tv.len(),
                tv == crate::proc_maps::views(tokens@),
                spec_anchors(tv, 0, 0, Seq::empty(), Seq::empty()) == spec_anchors(
                    tv,
                    i as int,
                    start as int,
                    cur@,
                    anchors@.map_values(|a: Anchor| a@),
                ),
                cur@.len() > 0 ==> start < i,
                forall|k: int|
                    0 <= k < anchors@.len() ==> (#[trigger] anchors@[k])@.bytes.len() >= 1,
            decreases n - i,
        {
            let ghost anchors0 = anchors@.map_values(|a: Anchor| a@);
            let tok = tokens[i].as_slice();
            proof {
                assert(tv[i as int] == tokens@[i as int]@);
            }
            if tok.len() == 2 && tok[0] == 0x3f && tok[1] == 0x3f {
                proof {
                    assert(is_wildcard(tv[i as int]));
                }
                if cur.len() > 0 {
                    let run = cur;
                    cur = Vec::new();
                    anchors.push(Anchor { offset: start, bytes: run });
                    proof {
                        assert(anchors@.map_values(|a: Anchor| a@) =~= anchors0 + seq![
                            anchors@.last()@,
                        ]);
                    }
                } else {
                    proof {
                        assert(cur@ =~= Seq::<u8>::empty());
                    }
                }
                start = 0;
            } else {
                let b: u8;
                if tok.len() == 2 {
                    let hi = match hex_digit(tok[0]) {
                        Some(h) => h,
                        None => {
                            proof {
                                assert(token_byte(tv[i as int]) is None);
                                assert(!is_wildcard(tv[i as int]));
                            }
                            return Err(Error::InvalidPatternByte { index: i });
                        },
                    };
                    let lo = match hex_digit(tok[1]) {
                        Some(h) => h,
                        None => {
                            proof {
                                assert(token_byte(tv[i as int]) is None);
                                assert(!is_wildcard(tv[i as int]));
                            }
                            return Err(Error::InvalidPatternByte { index: i });
                        },
                    };
                    b = hi * 16 + lo;
                    proof {
                        assert(token_byte(tv[i as int]) == Some(b));
                    }
                } else {
                    proof {
                        assert(token_byte(tv[i as int]) is None);
                        assert(!is_wildcard(tv[i as int]));
                    }
                    return Err(Error::InvalidPatternByte { index: i });
                }
                if cur.len() == 0 {
                    start = i;
                }
                cur.push(b);
            }
            i = i + 1;
        }
        if cur.len() > 0 {
            let ghost anchors0 = anchors@.map_values(|a: Anchor| a@);
            let run = cur;
            anchors.push(Anchor { offset: start, bytes: run });
            proof {
                assert(anchors@.map_values(|a: Anchor| a@) =~= anchors0 + seq![
                    anchors@.last()@,
                ]);
            }
        } else {
            proof {
                assert(cur@ =~= Seq::<u8>::empty());
            }
        }
        if anchors.len() == 0 {
            return Err(Error::AllWildcardPattern);
        }
        // pick the anchor of the highest score, earliest first
        let ghost ms_ok = anchors@.map_values(|a: Anchor| a@);
        let mut best: usize = 0;
        let mut best_score: i64 = match anchors[0].score() {
            Ok(v) => v,
            Err(e) => {
                proof {
                    assert(spec_anchors(tv, 0, 0, Seq::empty(), Seq::empty()) == Ok::<
                        _,
                        Error,
                    >(ms_ok));
                    let bb = choose|bb: u8| count_byte(anchors@[0]@.bytes, bb) > u16::MAX;
                    assert(ms_ok[0] == anchors@[0]@);
                    let parsed = spec_anchors(tv, 0, 0, Seq::empty(), Seq::empty());
                    assert(count_byte(parsed.unwrap()[0].bytes, bb) > u16::MAX);
                }
                return Err(e);
            },
        };
        let mut k: usize = 1;
        while k < anchors.len()
            invariant
                1 <= k <= anchors@.len(),
                best < k,
                forall|k2: int|
                    0 <= k2 < anchors@.len() ==> (#[trigger] anchors@[k2])@.bytes.len() >= 1,
                best_score as int == spec_score(anchors@[best as int]@.bytes),
                forall|k2: int|
                    0 <= k2 < k ==> spec_score((#[trigger] anchors@[k2])@.bytes)
                        <= best_score as int,
            decreases anchors@.len() - k,
        {
            let sc = match anchors[k].score() {
                Ok(v) => v,
                Err(e) => {
                    proof {
                        assert(spec_anchors(tv, 0, 0, Seq::empty(), Seq::empty()) == Ok::<
                            _,
                            Error,
                        >(ms_ok));
                        let bb = choose|bb: u8|
                            count_byte(anchors@[k as int]@.bytes, bb) > u16::MAX;
                        assert(ms_ok[k as int] == anchors@[k as int]@);
                        let parsed = spec_anchors(tv, 0, 0, Seq::empty(), Seq::empty());
                        assert(count_byte(parsed.unwrap()[k as int].bytes, bb) > u16::MAX);
                    }
                    return Err(e);
                },
            };
            if sc > best_score {
                best = k;
                best_score = sc;
            }
            k = k + 1;
        }
        let p = Pattern { anchors, best };
        proof {
            assert forall|k2: int|
                0 <= k2 < p.models().len() implies spec_score((#[trigger] p.models()[k2]).bytes)
                <= spec_score(p.models()[p.best as int].bytes) by {
                assert(p.models()[k2] == p.anchors@[k2]@);
            }
        }
        Ok(p)
    }

    /// The search anchor: the one of the highest score.
    pub fn get_best(&self) -> (r: &Anchor)
        requires
            self.wf(),
        ensures
            r@ == self.models()[self.best as int],
    {
        &self.anchors[self.best]
    }
}

/// The value of one hexadecimal digit, of either case.
fn hex_digit(b: u8) -> (r: Option<u8>)
    ensures
        match r {
            Some(v) => crate::num::is_hex_digit(b) && v as int == crate::num::hex_digit_val(b),
            None => !crate::num::is_hex_digit(b),
        },
{
    if 0x30 <= b && b <= 0x39 {
        Some(b - 0x30)
    } else if 0x41 <= b && b <= 0x46 {
        Some(b - 0x41 + 10)
    } else if 0x61 <= b && b <= 0x66 {
        Some(b - 0x61 + 10)
    } else {
        None
    }
}


/// A run of one repeated byte counts that byte everywhere and nothing
/// else.
proof fn lemma_count_all_same(s: Seq<u8>, v: u8)
    requires
        forall|i: int| 0 <= i < s.len() ==> s[i] == v,
    ensures
        count_byte(s, v) == s.len(),
        forall|b: u8| b != v ==> count_byte(s, b) == 0,
    decreases s.len(),
{
    if s.len() > 0 {
        lemma_count_all_same(s.drop_last(), v);
        assert forall|b: u8| b != v implies count_byte(s, b) == 0 by {
            assert(count_byte(s, b) == count_byte(s.drop_last(), b) + if s.last() == b {
                1int
            } else {
                0int
            });
        }
    }
}

/// A byte absent from a string counts zero.
proof fn lemma_count_zero(s: Seq<u8>, x: u8)
    requires
        forall|i: int| 0 <= i < s.len() ==> s[i] != x,
    ensures
        count_byte(s, x) == 0,
    decreases s.len(),
{
    if s.len() > 0 {
        lemma_count_zero(s.drop_last(), x);
    }
}

/// A byte present in a string counts at least once.
proof fn lemma_count_pos(s: Seq<u8>, x: u8, i: int)
    requires
        0 <= i < s.len(),
        s[i] == x,
    ensures
        count_byte(s, x) >= 1,
    decreases s.len(),
{
    lemma_count_nonneg(s.drop_last(), x);
    if i < s.len() - 1 {
        lemma_count_pos(s.drop_last(), x, i);
    }
}

/// In a string of pairwise-distinct bytes, no byte counts more than
/// once.
proof fn lemma_count_le_one(s: Seq<u8>, x: u8)
    requires
        forall|i: int, j: int| 0 <= i < j < s.len() ==> s[i] != s[j],
    ensures
        count_byte(s, x) <= 1,
    decreases s.len(),
{
    if s.len() > 0 {
        let t = s.drop_last();
        lemma_count_le_one(t, x);
        if s.last() == x {
            assert(forall|i: int| 0 <= i < t.len() ==> t[i] != x);
            lemma_count_zero(t, x);
        }
    }
}

/// When exactly one byte value occurs, exactly one value has a positive
/// count.
proof fn lemma_unique_all_same(s: Seq<u8>, v: u8, lo: int)
    requires
        0 <= lo <= 256,
        count_byte(s, v) > 0,
        forall|b: u8| b != v ==> count_byte(s, b) == 0,
    ensures
        unique_from(s, lo) == if lo <= v as int {
            1int
        } else {
            0int
        },
    decreases 256 - lo,
{
    if lo < 256 {
        lemma_unique_all_same(s, v, lo + 1);
    }
}

/// Two distinct present byte values witness at least two distinct
/// values.
proof fn lemma_unique_ge_two(s: Seq<u8>, x: u8, y: u8, lo: int)
    requires
        0 <= lo <= 256,
        count_byte(s, x) >= 1,
        count_byte(s, y) >= 1,
        x != y,
    ensures
        unique_from(s, lo) >= (if lo <= x as int {
            1int
        } else {
            0int
        }) + (if lo <= y as int {
            1int
        } else {
            0int
        }),
        unique_from(s, lo) >= 0,
    decreases 256 - lo,
{
    if lo < 256 {
        lemma_unique_ge_two(s, x, y, lo + 1);
    }
}

/// When exactly one byte value occurs `n` times, the entropy numerator
/// is `n` times the logarithm of `n`.
proof fn lemma_wsum_all_same(s: Seq<u8>, v: u8, lo: int)
    requires
        0 <= lo <= 256,
        forall|b: u8| b != v ==> count_byte(s, b) == 0,
    ensures
        wsum_from(s, lo) == if lo <= v as int {
            count_byte(s, v) * spec_lg(count_byte(s, v))
        } else {
            0int
        },
    decreases 256 - lo,
{
    if lo < 256 {
        lemma_wsum_all_same(s, v, lo + 1);
    }
}

/// When no byte value occurs more than once, the entropy numerator is
/// zero: a count of one contributes a zero logarithm.
proof fn lemma_wsum_le_one(s: Seq<u8>, lo: int)
    requires
        0 <= lo <= 256,
        forall|b: u8| 0 <= #[trigger] count_byte(s, b) <= 1,
    ensures
        wsum_from(s, lo) == 0,
    decreases 256 - lo,
{
    if lo < 256 {
        lemma_wsum_le_one(s, lo + 1);
        assert(spec_lg(1) == 0);
    }
}

/// The largest count dominates each value's count.
proof fn lemma_max_ge_count(s: Seq<u8>, lo: int, v: u8)
    requires
        0 <= lo <= v as int,
    ensures
        max_count_from(s, lo) >= count_byte(s, v),
    decreases 256 - lo,
{
    if lo < v as int {
        lemma_max_ge_count(s, lo + 1, v);
    }
}

/// A cap on every count caps the largest count.
proof fn lemma_max_le(s: Seq<u8>, lo: int, cap: int)
    requires
        0 <= lo <= 256,
        cap >= 0,
        forall|b: u8| #[trigger] count_byte(s, b) <= cap,
    ensures
        max_count_from(s, lo) <= cap,
    decreases 256 - lo,
{
    if lo < 256 {
        lemma_max_le(s, lo + 1, cap);
    }
}

/// Anchor scoring is deterministic — a pure function of the anchor's
/// bytes — and scores are integers, so any two anchors compare.  An
/// anchor of one repeated byte scores strictly below an anchor of
/// pairwise-distinct bytes of the same length: the scoring always
/// prefers the diverse anchor.
pub proof fn lemma_identical_below_distinct(a: Seq<u8>, b: Seq<u8>)
    requires
        a.len() == b.len(),
        2 <= a.len(),
        forall|i: int| 0 <= i < a.len() ==> #[trigger] a[i] == a[0],
        forall|i: int, j: int| 0 <= i < j < b.len() ==> #[trigger] b[i] != #[trigger] b[j],
    ensures
        spec_score(a) < spec_score(b),
{
    let n = a.len() as int;
    let v = a[0];
    // the identical-byte anchor: one value, counted n times
    lemma_count_all_same(a, v);
    lemma_unique_all_same(a, v, 0);
    lemma_wsum_all_same(a, v, 0);
    lemma_max_ge_count(a, 0, v);
    assert(unique_from(a, 0) == 1);
    assert(wsum_from(a, 0) == n * spec_lg(n));
    vstd::arithmetic::div_mod::lemma_div_multiples_vanish(spec_lg(n), n);
    assert((n * spec_lg(n)) / n == spec_lg(n));
    assert(spec_entropy(a) == 0);
    assert(10 * max_count_from(a, 0) > 9 * n);
    lemma_lg_nonneg(n);
    assert(3 * scale() * 1 / n <= 3 * scale()) by (nonlinear_arith)
        requires
            n >= 2,
    ;
    assert(3 * scale() * 1 / n >= 0) by (nonlinear_arith)
        requires
            n >= 2,
    ;
    assert(spec_score(a) <= 3 * scale() * n / 2 + 3 * scale() - 8 * scale());
    // the distinct-byte anchor: every value at most once
    assert forall|x: u8| 0 <= #[trigger] count_byte(b, x) <= 1 by {
        lemma_count_le_one(b, x);
        lemma_count_nonneg(b, x);
    }
    lemma_count_pos(b, b[0], 0);
    lemma_count_pos(b, b[1], 1);
    lemma_unique_ge_two(b, b[0], b[1], 0);
    lemma_wsum_le_one(b, 0);
    assert(wsum_from(b, 0) == 0);
    assert(spec_entropy(b) == spec_lg(n)) by {
        assert(wsum_from(b, 0) / n == 0) by {
            vstd::arithmetic::div_mod::lemma_div_of0(n);
        }
    }
    lemma_max_le(b, 0, 1);
    assert(10 * max_count_from(b, 0) <= 10 < 9 * n);
    assert(unique_from(b, 0) != 1);
    assert(3 * scale() * unique_from(b, 0) / n >= 0) by (nonlinear_arith)
        requires
            n >= 2,
            unique_from(b, 0) >= 0,
    ;
    assert(spec_score(b) >= 3 * scale() * n / 2);
    assert(spec_score(a) < spec_score(b));
}

} // verus!
