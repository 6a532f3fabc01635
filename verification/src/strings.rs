//! The string engine.
//!
//! A string search builds a byte needle from the literal search text —
//! its raw UTF-8 bytes, or the text re-encoded as little-endian 16-bit
//! code units, or as little-endian 32-bit code points — and finds every
//! offset where the needle occurs in a successfully read buffer.  The
//! match address is the buffer's base plus the offset.

use vstd::prelude::*;
use crate::pattern::{Anchor, Pattern, occurs_at};

verus! {

broadcast use vstd::utf8::char_is_scalar;

/// The little-endian UTF-16 encoding of a character sequence: one code
/// unit for scalars below `0x10000`, a surrogate pair for the rest.
pub open spec fn utf16_le(s: Seq<char>) -> Seq<u8>
    decreases s.len(),
{
    if s.len() == 0 {
        Seq::empty()
    } else {
        let v = s[0] as u32;
        let rest = utf16_le(s.drop_first());
        if v < 0x10000 {
            seq![(v % 0x100) as u8, (v / 0x100) as u8] + rest
        } else {
            let hi = 0xD800 + (v - 0x10000) / 0x400;
            let lo = 0xDC00 + (v - 0x10000) % 0x400;
            seq![
                (hi % 0x100) as u8,
                (hi / 0x100) as u8,
                (lo % 0x100) as u8,
                (lo / 0x100) as u8,
            ] + rest
        }
    }
}

/// The little-endian UTF-32 encoding of a character sequence: each
/// scalar as four bytes.
pub open spec fn utf32_le(s: Seq<char>) -> Seq<u8>
    decreases s.len(),
{
    if s.len() == 0 {
        Seq::empty()
    } else {
        let v = s[0] as u32;
        seq![
            (v % 0x100) as u8,
            (v / 0x100 % 0x100) as u8,
            (v / 0x10000 % 0x100) as u8,
            (v / 0x100_0000) as u8,
        ] + utf32_le(s.drop_first())
    }
}

/// Encoding one more character appends its units.
proof fn lemma_utf16_snoc(s: Seq<char>, i: int)
    requires
        0 <= i < s.len(),
    ensures
        ({
            let v = s[i] as u32;
            let unit: Seq<u8> = if v < 0x10000 {
                seq![(v % 0x100) as u8, (v / 0x100) as u8]
            } else {
                let hi = 0xD800 + (v - 0x10000) / 0x400;
                let lo = 0xDC00 + (v - 0x10000) % 0x400;
                seq![
                    (hi % 0x100) as u8,
                    (hi / 0x100) as u8,
                    (lo % 0x100) as u8,
                    (lo / 0x100) as u8,
                ]
            };
            utf16_le(s.subrange(0, i + 1)) == utf16_le(s.subrange(0, i)) + unit
        }),
    decreases i,
{
    let a = s.subrange(0, i + 1);
    let b = s.subrange(0, i);
    if i == 0 {
        assert(a.drop_first() =~= Seq::<char>::empty());
        assert(b =~= Seq::<char>::empty());
        assert(utf16_le(a) =~= utf16_le(b) + utf16_le(a));
    } else {
        let s1 = s.drop_first();
        lemma_utf16_snoc(s1, i - 1);
        assert(s1.subrange(0, i) =~= a.drop_first());
        assert(s1.subrange(0, i - 1) =~= b.drop_first());
        assert(s1[i - 1] == s[i]);
        assert(a[0] == s[0] && b[0] == s[0]);
        let v0 = s[0] as u32;
        let head: Seq<u8> = if v0 < 0x10000 {
            seq![(v0 % 0x100) as u8, (v0 / 0x100) as u8]
        } else {
            let hi = 0xD800 + (v0 - 0x10000) / 0x400;
            let lo = 0xDC00 + (v0 - 0x10000) % 0x400;
            seq![(hi % 0x100) as u8, (hi / 0x100) as u8, (lo % 0x100) as u8, (lo / 0x100) as u8]
        };
        assert(utf16_le(a) == head + utf16_le(a.drop_first()));
        assert(utf16_le(b) == head + utf16_le(b.drop_first()));
        let v = s[i] as u32;
        let unit: Seq<u8> = if v < 0x10000 {
            seq![(v % 0x100) as u8, (v / 0x100) as u8]
        } else {
            let hi = 0xD800 + (v - 0x10000) / 0x400;
            let lo = 0xDC00 + (v - 0x10000) % 0x400;
            seq![(hi % 0x100) as u8, (hi / 0x100) as u8, (lo % 0x100) as u8, (lo / 0x100) as u8]
        };
        assert(head + (utf16_le(b.drop_first()) + unit) =~= (head + utf16_le(b.drop_first()))
            + unit);
    }
}

/// Encoding one more character appends its four bytes.
proof fn lemma_utf32_snoc(s: Seq<char>, i: int)
    requires
        0 <= i < s.len(),
    ensures
        ({
            let v = s[i] as u32;
            utf32_le(s.subrange(0, i + 1)) == utf32_le(s.subrange(0, i)) + seq![
                (v % 0x100) as u8,
                (v / 0x100 % 0x100) as u8,
                (v / 0x10000 % 0x100) as u8,
                (v / 0x100_0000) as u8,
            ]
        }),
    decreases i,
{
    let a = s.subrange(0, i + 1);
    let b = s.subrange(0, i);
    if i == 0 {
        assert(a.drop_first() =~= Seq::<char>::empty());
        assert(b =~= Seq::<char>::empty());
        assert(utf32_le(a) =~= utf32_le(b) + utf32_le(a));
    } else {
        let s1 = s.drop_first();
        lemma_utf32_snoc(s1, i - 1);
        assert(s1.subrange(0, i) =~= a.drop_first());
        assert(s1.subrange(0, i - 1) =~= b.drop_first());
        assert(s1[i - 1] == s[i]);
        assert(a[0] == s[0] && b[0] == s[0]);
        let v0 = s[0] as u32;
        let head = seq![
            (v0 % 0x100) as u8,
            (v0 / 0x100 % 0x100) as u8,
            (v0 / 0x10000 % 0x100) as u8,
            (v0 / 0x100_0000) as u8,
        ];
        let v = s[i] as u32;
        let unit = seq![
            (v % 0x100) as u8,
            (v / 0x100 % 0x100) as u8,
            (v / 0x10000 % 0x100) as u8,
            (v / 0x100_0000) as u8,
        ];
        assert(utf32_le(a) == head + utf32_le(a.drop_first()));
        assert(utf32_le(b) == head + utf32_le(b.drop_first()));
        assert(head + (utf32_le(b.drop_first()) + unit) =~= (head + utf32_le(b.drop_first()))
            + unit);
    }
}

/// Re-encodes the search text as little-endian 16-bit code units.
pub fn encode_utf16_le(s: &str) -> (r: Vec<u8>)
    ensures
        r@ == utf16_le(s@),
{
    let n = s.unicode_len();
    let mut out: Vec<u8> = Vec::new();
    let mut i: usize = 0;
    proof {
        assert(s@.subrange(0, 0) =~= Seq::<char>::empty());
        assert(out@ =~= utf16_le(s@.subrange(0, 0)));
    }
    while i < n
        invariant
            0 <= i <= n,
            n == s@.len(),
            out@ == utf16_le(s@.subrange(0, i as int)),
        decreases n - i,
    {
        let c = s.get_char(i);
        let v = c as u32;
        proof {
            assert(vstd::utf8::is_scalar(c as u32));
            lemma_utf16_snoc(s@, i as int);
        }
        if v < 0x10000 {
            out.push((v % 0x100) as u8);
            out.push((v / 0x100) as u8);
            proof {
                assert(out@ =~= utf16_le(s@.subrange(0, i + 1)));
            }
        } else {
            let hi: u32 = 0xD800 + (v - 0x10000) / 0x400;
            let lo: u32 = 0xDC00 + (v - 0x10000) % 0x400;
            out.push((hi % 0x100) as u8);
            out.push((hi / 0x100) as u8);
            out.push((lo % 0x100) as u8);
            out.push((lo / 0x100) as u8);
            proof {
                assert(out@ =~= utf16_le(s@.subrange(0, i + 1)));
            }
        }
        i = i + 1;
    }
    proof {
        assert(s@.subrange(0, n as int) =~= s@);
    }
    out
}

/// Re-encodes the search text as little-endian 32-bit code points.
pub fn encode_utf32_le(s: &str) -> (r: Vec<u8>)
    ensures
        r@ == utf32_le(s@),
{
    let n = s.unicode_len();
    let mut out: Vec<u8> = Vec::new();
    let mut i: usize = 0;
    proof {
        assert(s@.subrange(0, 0) =~= Seq::<char>::empty());
        assert(out@ =~= utf32_le(s@.subrange(0, 0)));
    }
    while i < n
        invariant
            0 <= i <= n,
            n == s@.len(),
            out@ == utf32_le(s@.subrange(0, i as int)),
        decreases n - i,
    {
        let c = s.get_char(i);
        let v = c as u32;
        proof {
            lemma_utf32_snoc(s@, i as int);
        }
        out.push((v % 0x100) as u8);
        out.push((v / 0x100 % 0x100) as u8);
        out.push((v / 0x10000 % 0x100) as u8);
        out.push((v / 0x100_0000) as u8);
        proof {
            assert(out@ =~= utf32_le(s@.subrange(0, i + 1)));
        }
        i = i + 1;
    }
    proof {
        assert(s@.subrange(0, n as int) =~= s@);
    }
    out
}

/// Finds every offset at which the needle occurs in the buffer,
/// ascending: a one-anchor pattern search.
pub fn find_all(hay: &[u8], needle: Vec<u8>) -> (r: Vec<usize>)
    requires
        needle@.len() >= 1,
    ensures
        forall|o: usize| r@.contains(o) <==> occurs_at(hay@, needle@, o as int),
        forall|i: int, j: int| 0 <= i < j < r@.len() ==> r@[i] < r@[j],
{
    let ghost nb = needle@;
    let p = Pattern { anchors: vec![Anchor { offset: 0, bytes: needle }], best: 0 };
    proof {
        assert(p.models()[0].bytes == nb && p.models()[0].offset == 0);
        assert(p.wf());
    }
    let r = p.find_matches(hay);
    proof {
        assert forall|o: usize|
            r@.contains(o) <==> occurs_at(hay@, nb, o as int) by {
            if crate::pattern::spec_pattern_match(p.models(), hay@, o as int) {
                assert(occurs_at(hay@, p.models()[0].bytes, o as int + 0));
            }
            if occurs_at(hay@, nb, o as int) {
                assert forall|k: int|
                    0 <= k < p.models().len() implies occurs_at(
                    hay@,
                    (#[trigger] p.models()[k]).bytes,
                    o as int + p.models()[k].offset,
                ) by {
                    assert(k == 0);
                }
            }
        }
    }
    r
}

/// Searches one successfully read buffer for the needle and reports the
/// absolute address of every occurrence, ascending.
#[verifier::loop_isolation(false)]
pub fn search_chunk(base: u64, mem: &[u8], needle: Vec<u8>) -> (r: Vec<u64>)
    requires
        needle@.len() >= 1,
        base + mem@.len() <= u64::MAX,
    ensures
        forall|a: u64|
            r@.contains(a) <==> exists|o: int|
                occurs_at(mem@, needle@, o) && a == base + o,
        forall|i: int, j: int| 0 <= i < j < r@.len() ==> r@[i] < r@[j],
{
    let ghost nb = needle@;
    let ml = mem.len();
    let offs = find_all(mem, needle);
    let n = offs.len();
    let mut out: Vec<u64> = Vec::new();
    let mut k: usize = 0;
    while k < n
        invariant
            0 <= k <= n,
            n == offs@.len(),
            out@.len() == k,
            forall|i: int| 0 <= i < k ==> #[trigger] out@[i] == base + offs@[i],
        decreases n - k,
    {
        let o = offs[k];
        proof {
            assert(offs@.contains(offs@[k as int])) by {
                assert(offs@[k as int] == offs@[k as int]);
            }
            assert(occurs_at(mem@, nb, offs@[k as int] as int));
        }
        out.push(base + o as u64);
        k = k + 1;
    }
    proof {
        assert forall|a: u64|
            out@.contains(a) <==> exists|o: int|
                occurs_at(mem@, nb, o) && a == base + o by {
            if out@.contains(a) {
                let i = choose|i: int| 0 <= i < out@.len() && out@[i] == a;
                assert(offs@.contains(offs@[i])) by {
                    assert(offs@[i] == offs@[i]);
                }
                assert(occurs_at(mem@, nb, offs@[i] as int));
                assert(a == base + offs@[i] as int);
            }
            if exists|o: int| occurs_at(mem@, nb, o) && a == base + o {
                let o = choose|o: int| occurs_at(mem@, nb, o) && a == base + o;
                assert(0 <= o < mem@.len());
                assert(mem@.len() == ml as int);
                assert((o as usize) as int == o);
                assert(occurs_at(mem@, nb, (o as usize) as int));
                assert(offs@.contains(o as usize));
                let i = choose|i: int| 0 <= i < offs@.len() && offs@[i] == o as usize;
                assert(out@[i] == a);
            }
        }
        assert forall|i: int, j: int| 0 <= i < j < out@.len() implies out@[i] < out@[j] by {
            assert(offs@[i] < offs@[j]);
        }
    }
    out
}

} // verus!
