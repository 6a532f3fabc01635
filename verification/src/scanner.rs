//! The scan engine and its history.
//!
//! A scan decodes consecutive fixed-width chunks of each successfully
//! read buffer, evaluates the command's constraints on every candidate,
//! and collects the absolute addresses that match.  The history records
//! the match set of every scan, in order; a rescan re-examines only the
//! addresses of one chosen history entry and can only shrink it; the
//! diff lists what the newer of the two most recent match sets added.

use vstd::prelude::*;
use crate::Pid;
use crate::value::Value;
use crate::constraint::Constraint;

verus! {

/// Addresses are strictly ascending: sorted and duplicate-free.
pub open spec fn sorted_strict(s: Seq<u64>) -> bool {
    forall|i: int, j: int| 0 <= i < j < s.len() ==> s[i] < s[j]
}

/// The match addresses of one buffer: candidate `i` sits at byte offset
/// `i * width`, decodes from the chunk there, and matches when every
/// constraint holds of it; matches are reported from candidate `from`
/// on, as absolute addresses.
pub open spec fn spec_scan_matches(
    base: u64,
    mem: Seq<u8>,
    kind: Value,
    cs: Seq<Constraint>,
    from: int,
) -> Seq<u64>
    decreases mem.len() as int / kind.spec_bytes() as int - from,
{
    let w = kind.spec_bytes() as int;
    let count = mem.len() as int / w;
    if from < 0 || from >= count || w < 1 {
        Seq::empty()
    } else {
        let cand = Value::spec_decode(kind, mem.subrange(from * w, from * w + w));
        let rest = spec_scan_matches(base, mem, kind, cs, from + 1);
        if Constraint::spec_check_all(cs, cand, None) {
            seq![(base + from * w) as u64] + rest
        } else {
            rest
        }
    }
}

/// Scans one successfully read buffer: decodes consecutive chunks of
/// the value's width, evaluates the constraints on each (with no prior
/// reading), and returns the absolute address of every match, ascending.
/// A trailing remainder shorter than the width holds no candidate.
#[verifier::loop_isolation(false)]
pub fn scan_chunk(base: u64, mem: &[u8], kind: Value, cs: &Vec<Constraint>) -> (r: Vec<u64>)
    requires
        forall|i: int| 0 <= i < cs@.len() ==> (#[trigger] cs@[i]).wf_for(kind),
        base + mem@.len() <= u64::MAX,
    ensures
        r@ == spec_scan_matches(base, mem@, kind, cs@, 0),
{
    let w = kind.bytes();
    let count = mem.len() / w;
    let mut out: Vec<u64> = Vec::new();
    let mut i: usize = 0;
    let mut scratch = kind;
    proof {
        assert(scratch.same_kind(kind));
    }
    while i < count
        invariant
            0 <= i <= count,
            count == mem@.len() as int / w as int,
            w == kind.spec_bytes(),
            1 <= w <= 8,
            scratch.same_kind(kind),
            scratch.spec_bytes() == kind.spec_bytes(),
            spec_scan_matches(base, mem@, kind, cs@, 0) == out@ + spec_scan_matches(
                base,
                mem@,
                kind,
                cs@,
                i as int,
            ),
        decreases count - i,
    {
        let ghost out0 = out@;
        proof {
            assert(i * w + w <= count * w <= mem@.len()) by (nonlinear_arith)
                requires
                    0 <= i < count,
                    1 <= w,
                    count == mem@.len() as int / w as int,
            ;
        }
        let off = i * w;
        let ghost scratch0 = scratch;
        scratch.from_le_bytes(&mem[off..off + w]);
        proof {
            crate::constraint::lemma_decode_kind(scratch0, mem@.subrange(off as int, off + w));
            assert(scratch == Value::spec_decode(kind, mem@.subrange(off as int, off + w)));
            crate::constraint::lemma_decode_kind(kind, mem@.subrange(off as int, off + w));
            assert forall|ci: int| 0 <= ci < cs@.len() implies (#[trigger] cs@[ci]).wf_for(
                scratch,
            ) by {
                crate::constraint::lemma_wf_same_kind(cs@[ci], kind, scratch);
            }
        }
        let keep = Constraint::check_all(cs, scratch, None);
        if keep {
            out.push(base + (off as u64));
        }
        proof {
            let cand = Value::spec_decode(kind, mem@.subrange(i * w, i * w + w));
            assert(scratch == cand);
            if keep {
                assert(out@ =~= out0 + seq![(base + i * w) as u64]);
                assert(out@ + spec_scan_matches(base, mem@, kind, cs@, i + 1) =~= out0
                    + spec_scan_matches(base, mem@, kind, cs@, i as int));
            } else {
                assert(out@ + spec_scan_matches(base, mem@, kind, cs@, i + 1) =~= out0
                    + spec_scan_matches(base, mem@, kind, cs@, i as int));
            }
        }
        i = i + 1;
    }
    proof {
        assert(out@ + spec_scan_matches(base, mem@, kind, cs@, i as int) =~= out@);
    }
    out
}

/// Whether entry `i` of a rescan survives: its address was read in
/// full and the decoded value passes every constraint against its prior
/// reading, if one is supplied.
pub open spec fn spec_rescan_keep(
    reads: Seq<Option<Seq<u8>>>,
    kind: Value,
    cs: Seq<Constraint>,
    prevs: Option<Seq<Value>>,
    i: int,
) -> bool {
    &&& reads[i] is Some
    &&& Constraint::spec_check_all(
        cs,
        Value::spec_decode(kind, reads[i].unwrap()),
        match prevs {
            Some(p) => Some(p[i]),
            None => None,
        },
    )
}

/// The addresses of a rescan that survive, from entry `from` on, in the
/// entry's order.
pub open spec fn spec_rescan_matches(
    entry: Seq<u64>,
    reads: Seq<Option<Seq<u8>>>,
    kind: Value,
    cs: Seq<Constraint>,
    prevs: Option<Seq<Value>>,
    from: int,
) -> Seq<u64>
    decreases entry.len() - from,
{
    if from < 0 || from >= entry.len() {
        Seq::empty()
    } else {
        let rest = spec_rescan_matches(entry, reads, kind, cs, prevs, from + 1);
        if spec_rescan_keep(reads, kind, cs, prevs, from) {
            seq![entry[from]] + rest
        } else {
            rest
        }
    }
}

/// Re-evaluates the addresses of one history entry from their freshly
/// read bytes: address `i` stays exactly when its read succeeded and
/// the decoded value passes every constraint, with its prior reading
/// passed through when the caller kept one.  The result keeps the
/// entry's order, and — a rescan only narrows — every address of the
/// result is an address of the entry.
#[verifier::loop_isolation(false)]
pub fn rescan_eval(
    entry: &Vec<u64>,
    reads: &Vec<Option<Vec<u8>>>,
    kind: Value,
    cs: &Vec<Constraint>,
    prevs: Option<&Vec<Value>>,
) -> (r: Vec<u64>)
    requires
        reads@.len() == entry@.len(),
        forall|i: int|
            0 <= i < reads@.len() ==> ((#[trigger] reads@[i]) matches Some(b) ==> b@.len()
                == kind.spec_bytes()),
        forall|i: int| 0 <= i < cs@.len() ==> (#[trigger] cs@[i]).wf_for(kind),
        match prevs {
            Some(p) => p@.len() == entry@.len(),
            None => true,
        },
    ensures
        ({
            let prevs_model = match prevs {
                Some(p) => Some(p@),
                None => None::<Seq<Value>>,
            };
            let reads_model = crate::remote::results_model(reads@);
            &&& r@ == spec_rescan_matches(entry@, reads_model, kind, cs@, prevs_model, 0)
            &&& forall|a: u64| r@.contains(a) ==> entry@.contains(a)
        }),
{
    let ghost prevs_model = match prevs {
        Some(p) => Some(p@),
        None => None::<Seq<Value>>,
    };
    let ghost reads_model = crate::remote::results_model(reads@);
    let n = entry.len();
    let mut out: Vec<u64> = Vec::new();
    let mut i: usize = 0;
    while i < n
        invariant
            0 <= i <= n,
            n == entry@.len(),
            spec_rescan_matches(entry@, reads_model, kind, cs@, prevs_model, 0) == out@
                + spec_rescan_matches(entry@, reads_model, kind, cs@, prevs_model, i as int),
            forall|a: u64| out@.contains(a) ==> entry@.contains(a),
        decreases n - i,
    {
        let ghost out0 = out@;
        let keep = match &reads[i] {
            Some(bytes) => {
                let cand = Value::decode_le(kind, bytes.as_slice());
                proof {
                    crate::constraint::lemma_decode_kind(kind, bytes@);
                    assert forall|ci: int| 0 <= ci < cs@.len() implies (#[trigger] cs@[ci]).wf_for(
                        cand,
                    ) by {
                        crate::constraint::lemma_wf_same_kind(cs@[ci], kind, cand);
                    }
                }
                let prev = match prevs {
                    Some(p) => Some(p[i]),
                    None => None,
                };
                Constraint::check_all(cs, cand, prev)
            },
            None => false,
        };
        proof {
            assert(reads_model[i as int] == match reads@[i as int] {
                Some(v) => Some(v@),
                None => None::<Seq<u8>>,
            });
            assert(keep == spec_rescan_keep(reads_model, kind, cs@, prevs_model, i as int));
        }
        if keep {
            out.push(entry[i]);
            proof {
                assert(entry@.contains(entry@[i as int])) by {
                    assert(entry@[i as int] == entry@[i as int]);
                }
                assert(out@ =~= out0 + seq![entry@[i as int]]);
                assert(out@ + spec_rescan_matches(entry@, reads_model, kind, cs@, prevs_model, i + 1)
                    =~= out0 + spec_rescan_matches(entry@, reads_model, kind, cs@, prevs_model, i as int));
            }
        } else {
            proof {
                assert(out@ + spec_rescan_matches(entry@, reads_model, kind, cs@, prevs_model, i + 1)
                    =~= out0 + spec_rescan_matches(entry@, reads_model, kind, cs@, prevs_model, i as int));
            }
        }
        i = i + 1;
    }
    proof {
        assert(out@ + spec_rescan_matches(entry@, reads_model, kind, cs@, prevs_model, i as int)
            =~= out@);
    }
    out
}

/// The addresses of the newer match set that the older one lacks, by a
/// single merge pass over the two ascending sets.
pub fn diff(older: &Vec<u64>, newer: &Vec<u64>) -> (r: Vec<u64>)
    requires
        sorted_strict(older@),
        sorted_strict(newer@),
    ensures
        sorted_strict(r@),
        forall|a: u64| r@.contains(a) <==> newer@.contains(a) && !older@.contains(a),
{
    let n = newer.len();
    let m = older.len();
    let mut out: Vec<u64> = Vec::new();
    let mut i: usize = 0;
    let mut j: usize = 0;
    while i < n
        invariant
            0 <= i <= n,
            0 <= j <= m,
            n == newer@.len(),
            m == older@.len(),
            sorted_strict(older@),
            sorted_strict(newer@),
            sorted_strict(out@),
            i < n ==> forall|k: int| 0 <= k < j ==> older@[k] < newer@[i as int],
            i < n ==> forall|k: int| 0 <= k < out@.len() ==> out@[k] < newer@[i as int],
            forall|a: u64| out@.contains(a) ==> newer@.contains(a) && !older@.contains(a),
            forall|k: int|
                0 <= k < i ==> (!older@.contains(#[trigger] newer@[k]) ==> out@.contains(
                    newer@[k],
                )),
        decreases n - i + (m - j),
    {
        let ghost out0 = out@;
        if j < m {
            let a = newer[i];
            let b = older[j];
            if a < b {
                out.push(a);
                proof {
                    lemma_diff_emit(older@, newer@, out0, i as int, j as int);
                    assert(out@ =~= out0 + seq![newer@[i as int]]);
                }
                i = i + 1;
            } else if a == b {
                proof {
                    assert(older@.contains(newer@[i as int])) by {
                        assert(older@[j as int] == newer@[i as int]);
                    }
                }
                i = i + 1;
                j = j + 1;
            } else {
                j = j + 1;
            }
        } else {
            let a = newer[i];
            out.push(a);
            proof {
                lemma_diff_emit(older@, newer@, out0, i as int, j as int);
                assert(out@ =~= out0 + seq![newer@[i as int]]);
            }
            i = i + 1;
        }
    }
    proof {
        assert forall|a: u64| newer@.contains(a) && !older@.contains(a) implies out@.contains(
            a,
        ) by {
            let k = choose|k: int| 0 <= k < newer@.len() && newer@[k] == a;
            assert(!older@.contains(newer@[k]));
        }
    }
    out
}

/// When the head of the newer set is below every remaining older
/// address, it is absent from the older set and may be emitted.
proof fn lemma_diff_emit(older: Seq<u64>, newer: Seq<u64>, out0: Seq<u64>, i: int, j: int)
    requires
        sorted_strict(older),
        sorted_strict(newer),
        0 <= i < newer.len(),
        0 <= j <= older.len(),
        forall|k: int| 0 <= k < j ==> older[k] < newer[i],
        j < older.len() ==> newer[i] < older[j],
        forall|k: int| 0 <= k < out0.len() ==> out0[k] < newer[i],
        sorted_strict(out0),
        forall|a: u64| out0.contains(a) ==> newer.contains(a) && !older.contains(a),
    ensures
        sorted_strict(out0 + seq![newer[i]]),
        !older.contains(newer[i]),
        forall|a: u64|
            (out0 + seq![newer[i]]).contains(a) ==> newer.contains(a) && !older.contains(a),
        forall|k: int| 0 <= k < (out0 + seq![newer[i]]).len() ==> (out0 + seq![newer[i]])[k]
            <= newer[i],
        forall|a: u64| out0.contains(a) ==> (out0 + seq![newer[i]]).contains(a),
        (out0 + seq![newer[i]]).contains(newer[i]),
{
    assert((out0 + seq![newer[i]])[out0.len() as int] == newer[i]);
    assert forall|a: u64| out0.contains(a) implies (out0 + seq![newer[i]]).contains(a) by {
        let k = choose|k: int| 0 <= k < out0.len() && out0[k] == a;
        assert((out0 + seq![newer[i]])[k] == a);
    }
    let pushed = out0 + seq![newer[i]];
    assert(!older.contains(newer[i])) by {
        assert forall|k: int| 0 <= k < older.len() implies older[k] != newer[i] by {
            if k >= j {
                assert(older[j] <= older[k]);
            }
        }
    }
    assert(newer.contains(newer[i])) by {
        assert(newer[i] == newer[i]);
    }
    assert forall|a: u64| pushed.contains(a) implies newer.contains(a) && !older.contains(a) by {
        let k = choose|k: int| 0 <= k < pushed.len() && pushed[k] == a;
        if k < out0.len() {
            assert(out0.contains(a)) by {
                assert(out0[k] == a);
            }
        }
    }
}

/// The scanner: the identity of the target process and the history of
/// match sets, appended to by every committed scan.
#[derive(Debug)]
pub struct Scanner {
    /// The process being scanned.
    pid: Pid,
    /// History of match sets, oldest first.
    pub results: Vec<Vec<u64>>,
}

impl Scanner {
    /// The history as address sequences, oldest first.
    pub closed spec fn spec_history(self) -> Seq<Seq<u64>> {
        self.results@.map_values(|v: Vec<u64>| v@)
    }

    /// The process this scanner was created for.
    pub closed spec fn spec_pid(self) -> Pid {
        self.pid
    }

    /// Creates a scanner for the target process, with an empty history.
    pub fn new(pid: Pid) -> (r: Scanner)
        ensures
            r.spec_pid() == pid,
            r.spec_history().len() == 0,
    {
        Scanner { pid, results: Vec::new() }
    }

    /// The process this scanner reads.
    pub fn pid(&self) -> (r: Pid)
        ensures
            r == self.spec_pid(),
    {
        self.pid
    }

    /// Appends one scan's match set to the history.  Every committed
    /// scan appends, an empty one too, so that history indices stay
    /// stable.
    pub fn commit(&mut self, matches: Vec<u64>)
        ensures
            final(self).spec_pid() == old(self).spec_pid(),
            final(self).spec_history() == old(self).spec_history().push(matches@),
    {
        self.results.push(matches);
        proof {
            assert(self.spec_history() =~= old(self).spec_history().push(
                self.results@.last()@,
            ));
        }
    }

    /// The history entry a command names: `0` is the most recent entry,
    /// `i >= 1` the `i`-th entry from the oldest.  An index past the
    /// history yields nothing — and the command reports no results
    /// rather than an error.
    pub fn entry(&self, idx: usize) -> (r: Option<&Vec<u64>>)
        ensures
            match r {
                Some(v) => {
                    &&& self.spec_history().len() > 0
                    &&& (idx == 0 ==> v@ == self.spec_history().last())
                    &&& (idx >= 1 ==> idx <= self.spec_history().len() && v@
                        == self.spec_history()[idx - 1])
                },
                None => (idx == 0 && self.spec_history().len() == 0) || idx
                    > self.spec_history().len(),
            },
    {
        let n = self.results.len();
        if idx == 0 {
            if n == 0 {
                proof {
                    assert(self.spec_history().len() == 0);
                }
                None
            } else {
                Some(&self.results[n - 1])
            }
        } else if idx <= n {
            Some(&self.results[idx - 1])
        } else {
            None
        }
    }
}

} // verus!
