//! The remote-read model: scattered read requests and the retry
//! protocol that resolves them.
//!
//! The OS offers one vectored cross-process read call: it takes a batch
//! of address ranges and fills local buffers, returning how many bytes
//! it read before it stopped, or an outright failure when the very first
//! range is unreadable.  The embedder issues the call; this module owns
//! every decision around it: which suffix of the batch to request next,
//! which requests a call outcome resolves, and what the final result of
//! the batch is.  A request is either fully satisfied or failed; no
//! truncated data is ever returned.

use vstd::prelude::*;

verus! {

/// One contiguous remote address range to read.
#[derive(Debug, Clone, Copy, PartialEq, Eq, Structural)]
pub struct IoVec {
    /// Start address of the range.
    pub base: u64,
    /// Length of the range in bytes.
    pub len: usize,
}

impl IoVec {
    /// The range is non-empty and stays inside the address space.
    pub closed spec fn wf(self) -> bool {
        1 <= self.len && self.base + self.len <= u64::MAX
    }

    /// The half-open address interval the request covers.
    pub open spec fn interval(self) -> (u64, u64)
        recommends
            self.wf(),
    {
        (self.base, (self.base + self.len) as u64)
    }

    /// Constructs a request.
    pub fn new(base: u64, len: usize) -> (r: IoVec)
        ensures
            r.base == base && r.len == len,
    {
        IoVec { base, len }
    }
}


/// The decided portion of a batch from index `k` on, after one call
/// outcome that delivered `data`: requests fully covered by `data`
/// succeed with their bytes, the first request not fully covered fails
/// (its partial bytes are discarded), and the rest stay pending.
/// Returns the decisions for `[k, new_resolved)` and `new_resolved`.
pub open spec fn consume(reqs: Seq<IoVec>, k: int, data: Seq<u8>) -> (
    Seq<Option<Seq<u8>>>,
    int,
)
    decreases reqs.len() - k,
{
    if k < 0 || k >= reqs.len() {
        (Seq::empty(), k)
    } else {
        let l = reqs[k].len as int;
        if data.len() >= l {
            let sub = consume(reqs, k + 1, data.subrange(l, data.len() as int));
            (seq![Some(data.subrange(0, l))] + sub.0, sub.1)
        } else {
            (seq![None], k + 1)
        }
    }
}

/// The result views of a batch: each slot the full requested bytes, or
/// `None` for a failed or still pending request.
pub open spec fn results_model(rs: Seq<Option<Vec<u8>>>) -> Seq<Option<Seq<u8>>> {
    rs.map_values(
        |o: Option<Vec<u8>>|
            match o {
                Some(v) => Some(v@),
                None => None,
            },
    )
}

/// Splitting a result sequence at the decided window reassembles it:
/// outside the window the old results stand, inside it the decisions.
proof fn lemma_batch_assembly(
    model: Seq<Option<Seq<u8>>>,
    results0: Seq<Option<Seq<u8>>>,
    decided: Seq<Option<Seq<u8>>>,
    k0: int,
    new_res: int,
    n: int,
)
    requires
        model.len() == n,
        results0.len() == n,
        0 <= k0 <= new_res <= n,
        decided.len() == new_res - k0,
        forall|i: int| 0 <= i < k0 ==> model[i] == #[trigger] results0[i],
        forall|i: int| new_res <= i < n ==> model[i] == #[trigger] results0[i],
        forall|i: int| k0 <= i < new_res ==> model[i] == #[trigger] decided[i - k0],
    ensures
        model == results0.subrange(0, k0) + decided + results0.subrange(new_res, n),
{
    assert(model =~= results0.subrange(0, k0) + decided + results0.subrange(new_res, n));
}

/// One batch of scattered read requests being resolved by the retry
/// protocol.
///
/// The embedder repeatedly asks [`BatchRead::pending`] which suffix to
/// request, issues one vectored read call for it, and reports the
/// outcome through [`BatchRead::apply_bytes`] (the call read so many
/// bytes) or [`BatchRead::apply_failure`] (the call failed outright, so
/// the first pending request is unreadable).  Requests are decided left
/// to right, each exactly once: the protocol never re-issues a decided
/// request, and a batch of `n` requests is resolved in at most `n`
/// calls.
pub struct BatchRead {
    /// The requests of the batch, fixed at construction.
    requests: Vec<IoVec>,
    /// One slot per request: full bytes once succeeded, `None` while
    /// pending or once failed.
    results: Vec<Option<Vec<u8>>>,
    /// Requests below this index are decided.
    resolved: usize,
}

impl BatchRead {
    /// The machine's invariant: one result slot per request, decided
    /// slots before `resolved`, pending (`None`) slots after, and a
    /// successful slot holds exactly the requested byte count.
    pub closed spec fn wf(self) -> bool {
        &&& self.results@.len() == self.requests@.len()
        &&& self.resolved <= self.requests@.len()
        &&& forall|i: int|
            self.resolved <= i < self.results@.len() ==> (#[trigger] self.results@[i]) is None
        &&& forall|i: int|
            0 <= i < self.results@.len() ==> ((#[trigger] self.results@[i]) matches Some(b)
                ==> b@.len() == self.requests@[i].len)
    }

    /// The requests of the batch.
    pub closed spec fn spec_requests(self) -> Seq<IoVec> {
        self.requests@
    }

    /// The decided results so far.
    pub closed spec fn spec_results(self) -> Seq<Option<Seq<u8>>> {
        results_model(self.results@)
    }

    /// How many leading requests are decided.
    pub closed spec fn spec_resolved(self) -> int {
        self.resolved as int
    }

    /// Starts resolving a batch: nothing is decided yet.
    pub fn new(requests: Vec<IoVec>) -> (r: BatchRead)
        ensures
            r.wf(),
            r.spec_requests() == requests@,
            r.spec_resolved() == 0,
            forall|i: int| 0 <= i < r.spec_results().len() ==> (#[trigger] r.spec_results()[i]) is None,
    {
        let n = requests.len();
        let mut results: Vec<Option<Vec<u8>>> = Vec::new();
        let mut i: usize = 0;
        while i < n
            invariant
                0 <= i <= n,
                results@.len() == i,
                forall|j: int| 0 <= j < i ==> (#[trigger] results@[j]) is None,
            decreases n - i,
        {
            results.push(None);
            i = i + 1;
        }
        let r = BatchRead { requests, results, resolved: 0 };
        proof {
            assert forall|i2: int| 0 <= i2 < r.spec_results().len() implies (
            #[trigger] r.spec_results()[i2]) is None by {
                assert(r.results@[i2] is None);
            }
        }
        r
    }

    /// The index of the first undecided request: the embedder's next
    /// call covers the suffix from here.  `None` once every request is
    /// decided.
    pub fn pending(&self) -> (r: Option<usize>)
        requires
            self.wf(),
        ensures
            match r {
                Some(k) => k == self.spec_resolved() && k < self.spec_requests().len(),
                None => self.spec_resolved() == self.spec_requests().len(),
            },
    {
        if self.resolved < self.requests.len() {
            Some(self.resolved)
        } else {
            None
        }
    }

    /// The index of the first undecided request, equal to the request
    /// count once every request is decided.
    pub fn pending_index(&self) -> (r: usize)
        requires
            self.wf(),
        ensures
            r == self.spec_resolved(),
    {
        self.resolved
    }

    /// The request at an index, for the embedder to assemble its call.
    pub fn request_at(&self, i: usize) -> (r: IoVec)
        requires
            i < self.spec_requests().len(),
        ensures
            r == self.spec_requests()[i as int],
    {
        self.requests[i]
    }

    /// How many requests the batch holds.
    pub fn len(&self) -> (r: usize)
        ensures
            r == self.spec_requests().len(),
    {
        self.requests.len()
    }

    /// Records that the call for the pending suffix failed outright: the
    /// first pending request is unreadable, is marked failed, and is
    /// never asked for again.
    pub fn apply_failure(&mut self)
        requires
            old(self).wf(),
            old(self).spec_resolved() < old(self).spec_requests().len(),
        ensures
            final(self).wf(),
            final(self).spec_requests() == old(self).spec_requests(),
            final(self).spec_resolved() == old(self).spec_resolved() + 1,
            final(self).spec_results() == old(self).spec_results(),
    {
        let n = self.requests.len();
        self.resolved = self.resolved + 1;
    }

    /// Records that the call for the pending suffix read `data`: pending
    /// requests fully covered by `data` succeed with their bytes, in
    /// order; the first not fully covered is marked failed and skipped;
    /// later requests stay pending for the next call.  See [`consume`].
    #[verifier::loop_isolation(false)]
    pub fn apply_bytes(&mut self, data: &[u8])
        requires
            old(self).wf(),
            old(self).spec_resolved() < old(self).spec_requests().len(),
        ensures
            final(self).wf(),
            final(self).spec_requests() == old(self).spec_requests(),
            ({
                let (decided, new_resolved) = consume(
                    old(self).spec_requests(),
                    old(self).spec_resolved(),
                    data@,
                );
                &&& final(self).spec_resolved() == new_resolved
                &&& final(self).spec_results() == old(self).spec_results().subrange(
                    0,
                    old(self).spec_resolved(),
                ) + decided + old(self).spec_results().subrange(
                    new_resolved,
                    old(self).spec_results().len() as int,
                )
            }),
    {
        let ghost reqs = self.requests@;
        let ghost k0 = self.resolved as int;
        let ghost results0 = results_model(self.results@);
        let ghost decided = consume(reqs, k0, data@).0;
        let ghost new_res = consume(reqs, k0, data@).1;
        let n = self.requests.len();
        let mut off: usize = 0;
        proof {
            assert(data@.subrange(off as int, data@.len() as int) =~= data@);
            assert(results0.len() == n as int);
        }
        while self.resolved < n
            invariant
                self.wf(),
                self.requests@ == reqs,
                n == reqs.len(),
                k0 <= self.resolved as int <= n,
                off <= data@.len(),
                decided == consume(reqs, k0, data@).0,
                new_res == consume(reqs, k0, data@).1,
                forall|i: int|
                    0 <= i < k0 ==> results_model(self.results@)[i] == #[trigger] results0[i],
                forall|i: int|
                    self.resolved <= i < n ==> results_model(self.results@)[i]
                        == #[trigger] results0[i],
                consume(reqs, k0, data@) == ({
                    let sub = consume(
                        reqs,
                        self.resolved as int,
                        data@.subrange(off as int, data@.len() as int),
                    );
                    (
                        results_model(self.results@).subrange(k0, self.resolved as int) + sub.0,
                        sub.1,
                    )
                }),
            decreases n - self.resolved,
        {
            let ghost res_in = self.resolved as int;
            let ghost off_in = off as int;
            let ghost raw_in = self.results@;
            let ghost model_in = results_model(self.results@);
            let ghost rest_in = data@.subrange(off_in, data@.len() as int);
            let l = self.requests[self.resolved].len;
            if data.len() - off < l {
                // this request is not fully covered: it fails and the
                // next call resumes after it
                self.resolved = self.resolved + 1;
                proof {
                    assert(rest_in.len() < l);
                    assert(consume(reqs, res_in, rest_in) == (
                        seq![Option::<Seq<u8>>::None],
                        res_in + 1,
                    ));
                    assert(model_in[res_in] is None);
                    assert(new_res == res_in + 1);
                    assert(decided =~= model_in.subrange(k0, res_in) + seq![
                        Option::<Seq<u8>>::None,
                    ]);
                    lemma_batch_assembly(results_model(self.results@), results0, decided, k0, new_res, n as int);
                }
                return ;
            }
            let chunk = vstd::slice::slice_to_vec(&data[off..off + l]);
            self.results.set(self.resolved, Some(chunk));
            self.resolved = self.resolved + 1;
            off = off + l;
            proof {
                let model_out = results_model(self.results@);
                let rest_out = data@.subrange(off as int, data@.len() as int);
                assert(rest_in.len() >= l);
                assert(rest_in.subrange(0, l as int) =~= data@.subrange(off_in, off_in + l));
                assert(rest_in.subrange(l as int, rest_in.len() as int) =~= rest_out);
                assert(consume(reqs, res_in, rest_in) == ({
                    let sub = consume(reqs, res_in + 1, rest_out);
                    (seq![Some(data@.subrange(off_in, off_in + l))] + sub.0, sub.1)
                }));
                assert(model_out[res_in] == Some(data@.subrange(off_in, off_in + l)));
                assert(self.results@ == raw_in.update(res_in, self.results@[res_in]));
                assert forall|i: int| 0 <= i < n && i != res_in implies model_out[i]
                    == model_in[i] by {
                    assert(self.results@[i] == raw_in[i]);
                }
                assert(model_out.subrange(k0, res_in) =~= model_in.subrange(k0, res_in));
                assert(model_in.subrange(k0, res_in) + (seq![Some(
                    data@.subrange(off_in, off_in + l),
                )] + consume(reqs, res_in + 1, rest_out).0) =~= model_out.subrange(
                    k0,
                    res_in + 1,
                ) + consume(reqs, res_in + 1, rest_out).0);
            }
        }
        proof {
            let rest = data@.subrange(off as int, data@.len() as int);
            assert(consume(reqs, self.resolved as int, rest) == (
                Seq::<Option<Seq<u8>>>::empty(),
                self.resolved as int,
            ));
            assert(decided =~= results_model(self.results@).subrange(k0, self.resolved as int));
            assert(new_res == self.resolved as int);
            lemma_batch_assembly(results_model(self.results@), results0, decided, k0, new_res, n as int);
        }
    }

    /// Hands out the final results, one slot per request, once every
    /// request is decided.
    pub fn into_results(self) -> (r: Vec<Option<Vec<u8>>>)
        requires
            self.wf(),
            self.spec_resolved() == self.spec_requests().len(),
        ensures
            results_model(r@) == self.spec_results(),
            r@.len() == self.spec_requests().len(),
    {
        self.results
    }
}


/// The concatenation of the memory contents of requests `k` to `j`.
pub open spec fn concat_from(mem: Seq<Seq<u8>>, k: int, j: int) -> Seq<u8>
    decreases j - k,
{
    if k < 0 || k >= j {
        Seq::empty()
    } else {
        mem[k] + concat_from(mem, k + 1, j)
    }
}

/// What one call outcome that delivered the contents of requests `k` to
/// `j` resolves: those requests succeed with exactly their contents, and
/// the request after the run — where the call stopped — fails.
proof fn lemma_consume_run(reqs: Seq<IoVec>, mem: Seq<Seq<u8>>, k: int, j: int)
    requires
        0 <= k <= j <= reqs.len(),
        mem.len() == reqs.len(),
        forall|i: int| 0 <= i < reqs.len() ==> (#[trigger] mem[i]).len() == reqs[i].len,
        forall|i: int| 0 <= i < reqs.len() ==> (#[trigger] reqs[i]).len >= 1,
    ensures
        ({
            let (decided, new_res) = consume(reqs, k, concat_from(mem, k, j));
            &&& new_res == if j < reqs.len() {
                j + 1
            } else {
                j
            }
            &&& decided.len() == new_res - k
            &&& forall|i: int| k <= i < j ==> #[trigger] decided[i - k] == Some(mem[i])
            &&& j < reqs.len() ==> decided[j - k] is None
        }),
    decreases j - k,
{
    let data = concat_from(mem, k, j);
    if k == j {
        if k < reqs.len() {
            assert(data.len() == 0);
            assert(consume(reqs, k, data) == (seq![Option::<Seq<u8>>::None], k + 1));
        }
    } else {
        let l = reqs[k].len as int;
        assert(data == mem[k] + concat_from(mem, k + 1, j));
        assert(data.len() >= l);
        assert(data.subrange(0, l) =~= mem[k]);
        assert(data.subrange(l, data.len() as int) =~= concat_from(mem, k + 1, j));
        lemma_consume_run(reqs, mem, k + 1, j);
        let sub = consume(reqs, k + 1, concat_from(mem, k + 1, j));
        let whole = consume(reqs, k, data);
        assert(whole == (seq![Some(mem[k])] + sub.0, sub.1));
        assert forall|i: int| k <= i < j implies #[trigger] whole.0[i - k] == Some(mem[i]) by {
            if i > k {
                assert(whole.0[i - k] == sub.0[i - (k + 1)]);
            }
        }
        if j < reqs.len() {
            assert(whole.0[j - k] == sub.0[j - (k + 1)]);
        }
    }
}

/// The views of the modelled memory contents.
pub open spec fn mem_model(mem: Seq<Vec<u8>>) -> Seq<Seq<u8>> {
    mem.map_values(|v: Vec<u8>| v@)
}

/// Resolves a whole batch against a modelled memory, driving the retry
/// protocol the way the embedder drives it against the OS: each
/// simulated call delivers the contents of the longest run of readable
/// requests from the first pending one, or fails outright when that
/// request is unreadable.
///
/// The result is exactly one slot per request: the full contents for
/// every readable request and nothing for every unreadable one —
/// whatever the positions of the unreadable requests.
pub fn read_many_from(requests: Vec<IoVec>, valid: &Vec<bool>, mem: &Vec<Vec<u8>>) -> (r: Vec<
    Option<Vec<u8>>,
>)
    requires
        valid@.len() == requests@.len(),
        mem@.len() == requests@.len(),
        forall|i: int|
            0 <= i < requests@.len() ==> (#[trigger] mem@[i])@.len() == requests@[i].len,
        forall|i: int| 0 <= i < requests@.len() ==> (#[trigger] requests@[i]).len >= 1,
    ensures
        r@.len() == requests@.len(),
        forall|i: int|
            0 <= i < requests@.len() ==> results_model(r@)[i] == (if valid@[i] {
                Some(mem@[i]@)
            } else {
                Option::<Seq<u8>>::None
            }),
{
    let ghost reqs = requests@;
    let ghost mems = mem_model(mem@);
    let n = requests.len();
    let mut machine = BatchRead::new(requests);
    while machine.pending_index() < n
        invariant
            machine.wf(),
            machine.spec_requests() == reqs,
            n == reqs.len(),
            valid@.len() == n,
            mem@.len() == n,
            mems == mem_model(mem@),
            forall|i: int| 0 <= i < n ==> (#[trigger] mems[i]).len() == reqs[i].len,
            forall|i: int| 0 <= i < n ==> (#[trigger] reqs[i]).len >= 1,
            machine.spec_results().len() == n,
            forall|i: int|
                machine.spec_resolved() <= i < n ==> (#[trigger] machine.spec_results()[i])
                    is None,
            forall|i: int|
                0 <= i < machine.spec_resolved() ==> #[trigger] machine.spec_results()[i] == (
                if valid@[i] {
                    Some(mems[i])
                } else {
                    Option::<Seq<u8>>::None
                }),
        decreases n - machine.spec_resolved(),
    {
        let k = machine.pending_index();
        let ghost model0 = machine.spec_results();
        if !valid[k] {
            // the simulated call fails outright: the first pending
            // request is unreadable
            machine.apply_failure();
        } else {
            // the simulated call reads up to the first unreadable
            // request
            let mut data: Vec<u8> = Vec::new();
            let mut j = k;
            while j < n && valid[j]
                invariant
                    k <= j <= n,
                    n == reqs.len(),
                    valid@.len() == n,
                    mem@.len() == n,
                    mems == mem_model(mem@),
                    forall|i: int| k <= i < j ==> valid@[i],
                    data@ == concat_from(mems, k as int, j as int),
                decreases n - j,
            {
                data.extend_from_slice(mem[j].as_slice());
                proof {
                    lemma_concat_snoc(mems, k as int, j as int);
                }
                j = j + 1;
            }
            proof {
                lemma_consume_run(reqs, mems, k as int, j as int);
            }
            machine.apply_bytes(data.as_slice());
            proof {
                let decided = consume(reqs, k as int, data@).0;
                let new_res = consume(reqs, k as int, data@).1;
                assert forall|i: int|
                    0 <= i < machine.spec_resolved() implies #[trigger] machine.spec_results()[i]
                    == (if valid@[i] {
                    Some(mems[i])
                } else {
                    Option::<Seq<u8>>::None
                }) by {
                    if i < k {
                        assert(machine.spec_results()[i] == model0.subrange(0, k as int)[i]);
                        assert(machine.spec_results()[i] == model0[i]);
                    } else {
                        assert(machine.spec_results()[i] == decided[i - k]);
                        if i < j {
                            assert(valid@[i]);
                        } else {
                            assert(i == j && j < n);
                            assert(!valid@[i]);
                        }
                    }
                }
                assert forall|i: int|
                    machine.spec_resolved() <= i < n implies (
                #[trigger] machine.spec_results()[i]) is None by {
                    assert(machine.spec_results()[i] == model0.subrange(new_res, n as int)[i
                        - new_res]);
                    assert(machine.spec_results()[i] == model0[i]);
                }
            }
        }
    }
    let r = machine.into_results();
    proof {
        assert forall|i: int| 0 <= i < reqs.len() implies results_model(r@)[i] == (if valid@[i] {
            Some(mem@[i]@)
        } else {
            Option::<Seq<u8>>::None
        }) by {
            assert(mems[i] == mem@[i]@);
        }
    }
    r
}

/// Extending a concatenation by one request's contents.
proof fn lemma_concat_snoc(mem: Seq<Seq<u8>>, k: int, j: int)
    requires
        0 <= k <= j < mem.len(),
    ensures
        concat_from(mem, k, j + 1) == concat_from(mem, k, j) + mem[j],
    decreases j - k,
{
    if k == j {
        assert(concat_from(mem, k, j + 1) == mem[k] + concat_from(mem, k + 1, j + 1));
        assert(concat_from(mem, k + 1, j + 1) =~= Seq::<u8>::empty());
        assert(concat_from(mem, k, j) =~= Seq::<u8>::empty());
        assert(concat_from(mem, k, j + 1) =~= concat_from(mem, k, j) + mem[j]);
    } else {
        lemma_concat_snoc(mem, k + 1, j);
        assert(concat_from(mem, k, j + 1) == mem[k] + concat_from(mem, k + 1, j + 1));
        assert(concat_from(mem, k, j) == mem[k] + concat_from(mem, k + 1, j));
        assert(mem[k] + (concat_from(mem, k + 1, j) + mem[j]) =~= (mem[k] + concat_from(
            mem,
            k + 1,
            j,
        )) + mem[j]);
    }
}

} // verus!
