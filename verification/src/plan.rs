//! The batch planner.
//!
//! A scan reads memory in batches of scattered requests.  The planner
//! takes the catalog's regions clipped to the commanded address range
//! and emits batches such that no batch asks for more bytes than the
//! chunk budget, no batch holds more requests than the OS accepts in
//! one vectored call, and the requests — concatenated back together in
//! order — reconstruct the clipped regions exactly: no byte is read
//! twice and none is skipped.  A region larger than the remaining
//! budget is split across requests and, when needed, across batches.
//!
//! Intervals are half-open `(start, end)` address pairs.

use vstd::prelude::*;

verus! {

/// Every interval is non-empty.
pub open spec fn valid_intervals(regs: Seq<(u64, u64)>) -> bool {
    forall|i: int| 0 <= i < regs.len() ==> (#[trigger] regs[i]).0 < regs[i].1
}

/// Total byte count of a sequence of intervals.
pub open spec fn total_len(regs: Seq<(u64, u64)>) -> int
    decreases regs.len(),
{
    if regs.len() == 0 {
        0
    } else {
        (regs[0].1 - regs[0].0) + total_len(regs.drop_first())
    }
}

/// The requests `reqs`, concatenated in order, reconstruct the regions
/// `regs` exactly: request after request consumes its region from the
/// start, with no gap, no overlap, and nothing beyond the region, and
/// every region is consumed in full.  This is the planner's coverage
/// contract.
pub open spec fn covers(reqs: Seq<(u64, u64)>, regs: Seq<(u64, u64)>) -> bool
    decreases reqs.len(),
{
    if regs.len() == 0 {
        reqs.len() == 0
    } else if reqs.len() == 0 {
        false
    } else {
        let q = reqs[0];
        let r = regs[0];
        &&& q.0 == r.0
        &&& q.0 < q.1
        &&& if q.1 == r.1 {
            covers(reqs.drop_first(), regs.drop_first())
        } else if q.1 < r.1 {
            covers(reqs.drop_first(), seq![(q.1, r.1)] + regs.drop_first())
        } else {
            false
        }
    }
}

/// One batch taken greedily from the front of `regs`: requests are
/// emitted while the byte budget and the request count allow; a region
/// larger than the remaining budget contributes a partial request and
/// ends the batch.  Returns the batch and the regions (first possibly
/// shrunk) still to plan.
pub open spec fn take_batch(regs: Seq<(u64, u64)>, budget: int, count: int) -> (
    Seq<(u64, u64)>,
    Seq<(u64, u64)>,
)
    decreases regs.len(),
{
    if regs.len() == 0 || budget <= 0 || count <= 0 {
        (Seq::empty(), regs)
    } else {
        let r = regs[0];
        let len = r.1 - r.0;
        if len <= budget {
            let sub = take_batch(regs.drop_first(), budget - len, count - 1);
            (seq![r] + sub.0, sub.1)
        } else {
            (seq![(r.0, (r.0 + budget) as u64)], seq![((r.0 + budget) as u64, r.1)]
                + regs.drop_first())
        }
    }
}

/// Byte count of a batch and bound on its requests: what `take_batch`
/// guarantees of its result.
pub proof fn lemma_take_batch(regs: Seq<(u64, u64)>, budget: int, count: int)
    requires
        valid_intervals(regs),
        budget <= u64::MAX,
    ensures
        ({
            let (batch, rest) = take_batch(regs, budget, count);
            &&& valid_intervals(rest)
            &&& valid_intervals(batch)
            &&& total_len(batch) <= if budget >= 0 {
                budget
            } else {
                0
            }
            &&& batch.len() <= if count >= 0 {
                count
            } else {
                0
            }
            &&& (regs.len() > 0 && budget >= 1 && count >= 1) ==> batch.len() >= 1
            &&& total_len(rest) == total_len(regs) - total_len(batch)
        }),
    decreases regs.len(),
{
    if regs.len() == 0 || budget <= 0 || count <= 0 {
    } else {
        let r = regs[0];
        let len = r.1 - r.0;
        assert(valid_intervals(regs.drop_first()));
        if len <= budget {
            lemma_take_batch(regs.drop_first(), budget - len, count - 1);
            let sub = take_batch(regs.drop_first(), budget - len, count - 1);
            let batch = seq![r] + sub.0;
            assert(take_batch(regs, budget, count) == (batch, sub.1));
            assert(batch.drop_first() =~= sub.0);
            assert(batch[0] == r);
            assert(total_len(batch) == len + total_len(sub.0));
            assert(total_len(regs) == len + total_len(regs.drop_first()));
            assert forall|i: int| 0 <= i < batch.len() implies (#[trigger] batch[i]).0
                < batch[i].1 by {
                if i > 0 {
                    assert(batch[i] == sub.0[i - 1]);
                }
            }
        } else {
            let batch = take_batch(regs, budget, count).0;
            let rest = take_batch(regs, budget, count).1;
            assert(batch =~= seq![(r.0, (r.0 + budget) as u64)]);
            assert(rest =~= seq![((r.0 + budget) as u64, r.1)] + regs.drop_first());
            assert(batch.drop_first() =~= Seq::<(u64, u64)>::empty());
            assert(rest.drop_first() =~= regs.drop_first());
            assert forall|i: int| 0 <= i < rest.len() implies (#[trigger] rest[i]).0
                < rest[i].1 by {
                if i > 0 {
                    assert(rest[i] == regs.drop_first()[i - 1]);
                }
            }
            assert(0 <= r.0 + budget <= u64::MAX);
            assert((r.0 + budget) as u64 == r.0 + budget);
            assert(batch[0] == (r.0, (r.0 + budget) as u64));
            assert(batch[0].1 - batch[0].0 == budget);
            assert(total_len(batch.drop_first()) == 0);
            assert(total_len(batch) == batch[0].1 - batch[0].0 + total_len(batch.drop_first()));
            assert(total_len(batch) == budget);
            assert(total_len(rest) == (r.1 - (r.0 + budget)) + total_len(regs.drop_first()));
            assert(total_len(regs) == len + total_len(regs.drop_first()));
        }
    }
}

/// Coverage composes across one batch: what follows a batch covers the
/// remainder exactly when the batch plus what follows covers the whole.
pub proof fn lemma_take_batch_covers(
    regs: Seq<(u64, u64)>,
    budget: int,
    count: int,
    tail: Seq<(u64, u64)>,
)
    requires
        valid_intervals(regs),
        budget <= u64::MAX,
    ensures
        ({
            let (batch, rest) = take_batch(regs, budget, count);
            covers(batch + tail, regs) <==> covers(tail, rest)
        }),
    decreases regs.len(),
{
    let (batch, rest) = take_batch(regs, budget, count);
    if regs.len() == 0 || budget <= 0 || count <= 0 {
        assert(batch + tail =~= tail);
    } else {
        let r = regs[0];
        let len = r.1 - r.0;
        assert(valid_intervals(regs.drop_first()));
        if len <= budget {
            let sub = take_batch(regs.drop_first(), budget - len, count - 1);
            lemma_take_batch_covers(regs.drop_first(), budget - len, count - 1, tail);
            assert(batch =~= seq![r] + sub.0);
            let whole = batch + tail;
            assert(whole[0] == r);
            assert(whole.drop_first() =~= sub.0 + tail);
            assert(covers(whole, regs) <==> covers(sub.0 + tail, regs.drop_first()));
        } else {
            let q = (r.0, (r.0 + budget) as u64);
            assert(batch =~= seq![q]);
            let whole = batch + tail;
            assert(whole[0] == q);
            assert(whole.drop_first() =~= tail);
            assert(q.1 < r.1);
            assert(rest =~= seq![(q.1, r.1)] + regs.drop_first());
            assert(covers(whole, regs) <==> covers(tail, rest));
        }
    }
}

/// The batches the planner emits for the regions still to read: one
/// greedy batch, then the plan of what remains.
pub open spec fn plan_spec(regs: Seq<(u64, u64)>, chunk: int, iov_max: int) -> Seq<
    Seq<(u64, u64)>,
>
    recommends
        valid_intervals(regs),
        1 <= chunk <= u64::MAX,
        1 <= iov_max,
    decreases total_len(regs),
    when valid_intervals(regs) && 1 <= chunk <= u64::MAX && 1 <= iov_max
    via plan_spec_decreases
{
    if regs.len() == 0 {
        Seq::empty()
    } else {
        let (batch, rest) = take_batch(regs, chunk, iov_max);
        seq![batch] + plan_spec(rest, chunk, iov_max)
    }
}

#[via_fn]
proof fn plan_spec_decreases(regs: Seq<(u64, u64)>, chunk: int, iov_max: int) {
    if regs.len() > 0 {
        lemma_take_batch(regs, chunk, iov_max);
        let (batch, rest) = take_batch(regs, chunk, iov_max);
        lemma_total_len_nonneg(rest);
        lemma_total_len_nonneg(batch);
        assert(batch.len() >= 1);
        assert(total_len(batch) >= batch[0].1 - batch[0].0) by {
            lemma_total_len_nonneg(batch.drop_first());
        }
    }
}

/// A sequence of non-empty intervals has a positive byte count.
pub proof fn lemma_total_len_nonneg(regs: Seq<(u64, u64)>)
    requires
        valid_intervals(regs),
    ensures
        total_len(regs) >= 0,
        regs.len() > 0 ==> total_len(regs) >= 1,
    decreases regs.len(),
{
    if regs.len() > 0 {
        assert(valid_intervals(regs.drop_first()));
        lemma_total_len_nonneg(regs.drop_first());
    }
}

/// The planner's coverage law: the requests of all batches, concatenated
/// in order, reconstruct the planned regions exactly — no gap, no
/// overlap, nothing beyond them, nothing missing.
pub proof fn lemma_plan_covers(regs: Seq<(u64, u64)>, chunk: int, iov_max: int)
    requires
        valid_intervals(regs),
        1 <= chunk <= u64::MAX,
        1 <= iov_max,
    ensures
        covers(plan_spec(regs, chunk, iov_max).flatten(), regs),
    decreases total_len(regs),
{
    lemma_total_len_nonneg(regs);
    if regs.len() == 0 {
        assert(plan_spec(regs, chunk, iov_max).flatten() =~= Seq::<(u64, u64)>::empty());
    } else {
        lemma_take_batch(regs, chunk, iov_max);
        let (batch, rest) = take_batch(regs, chunk, iov_max);
        lemma_total_len_nonneg(batch);
        lemma_total_len_nonneg(rest);
        assert(total_len(batch) >= 1);
        lemma_plan_covers(rest, chunk, iov_max);
        let plan = plan_spec(regs, chunk, iov_max);
        let sub = plan_spec(rest, chunk, iov_max);
        assert(plan == seq![batch] + sub);
        assert(plan.drop_first() =~= sub);
        assert(plan.first() == batch);
        assert(plan.flatten() == batch + sub.flatten());
        lemma_take_batch_covers(regs, chunk, iov_max, sub.flatten());
    }
}

/// The planner's resource law: every batch is non-empty, holds at most
/// `iov_max` requests, and asks for at most `chunk` bytes.
pub proof fn lemma_plan_bounds(regs: Seq<(u64, u64)>, chunk: int, iov_max: int)
    requires
        valid_intervals(regs),
        1 <= chunk <= u64::MAX,
        1 <= iov_max,
    ensures
        forall|k: int|
            0 <= k < plan_spec(regs, chunk, iov_max).len() ==> {
                let batch = #[trigger] plan_spec(regs, chunk, iov_max)[k];
                &&& 1 <= batch.len() <= iov_max
                &&& total_len(batch) <= chunk
                &&& valid_intervals(batch)
            },
    decreases total_len(regs),
{
    lemma_total_len_nonneg(regs);
    if regs.len() > 0 {
        lemma_take_batch(regs, chunk, iov_max);
        let (batch, rest) = take_batch(regs, chunk, iov_max);
        lemma_total_len_nonneg(batch);
        lemma_total_len_nonneg(rest);
        lemma_plan_bounds(rest, chunk, iov_max);
        let plan = plan_spec(regs, chunk, iov_max);
        let sub = plan_spec(rest, chunk, iov_max);
        assert forall|k: int| 0 <= k < plan.len() implies {
            let b = #[trigger] plan[k];
            &&& 1 <= b.len() <= iov_max
            &&& total_len(b) <= chunk
            &&& valid_intervals(b)
        } by {
            if k == 0 {
                assert(plan[0] == batch);
            } else {
                assert(plan[k] == sub[k - 1]);
            }
        }
    }
}



/// Requests that cover regions carry exactly the regions' bytes: a
/// covering plan reads nothing twice and skips nothing.
pub proof fn lemma_covers_total_len(reqs: Seq<(u64, u64)>, regs: Seq<(u64, u64)>)
    requires
        covers(reqs, regs),
    ensures
        total_len(reqs) == total_len(regs),
    decreases reqs.len(),
{
    if regs.len() == 0 {
    } else {
        let q = reqs[0];
        let r = regs[0];
        if q.1 == r.1 {
            lemma_covers_total_len(reqs.drop_first(), regs.drop_first());
        } else {
            let regs2 = seq![(q.1, r.1)] + regs.drop_first();
            lemma_covers_total_len(reqs.drop_first(), regs2);
            assert(regs2.drop_first() =~= regs.drop_first());
            assert(total_len(regs2) == (r.1 - q.1) + total_len(regs.drop_first()));
        }
    }
}

/// The regions still to plan while the planner walks the catalog: the
/// region at `idx` shrunk to start at `cur`, then the rest.
pub open spec fn rem_of(regs: Seq<(u64, u64)>, idx: int, cur: u64) -> Seq<(u64, u64)> {
    if 0 <= idx < regs.len() {
        seq![(cur, regs[idx].1)] + regs.subrange(idx + 1, regs.len() as int)
    } else {
        Seq::empty()
    }
}

/// The address intervals of a batch of requests.
pub open spec fn batch_model(b: Seq<crate::remote::IoVec>) -> Seq<(u64, u64)> {
    b.map_values(|iv: crate::remote::IoVec| iv.interval())
}

/// The address intervals of every batch.
pub open spec fn batches_model(bs: Seq<Vec<crate::remote::IoVec>>) -> Seq<Seq<(u64, u64)>> {
    bs.map_values(|b: Vec<crate::remote::IoVec>| batch_model(b@))
}

/// Plans the read batches for a sequence of non-empty, in-range
/// intervals: the result is exactly [`plan_spec`], so the coverage and
/// resource laws [`lemma_plan_covers`] and [`lemma_plan_bounds`] hold
/// of it.
pub fn plan_exec(regs: &Vec<(u64, u64)>, chunk_size: usize, iov_max: usize) -> (r: Vec<
    Vec<crate::remote::IoVec>,
>)
    requires
        valid_intervals(regs@),
        1 <= chunk_size,
        1 <= iov_max,
    ensures
        batches_model(r@) == plan_spec(regs@, chunk_size as int, iov_max as int),
{
    let ghost chunk = chunk_size as int;
    let ghost iov = iov_max as int;
    let n = regs.len();
    let mut batches: Vec<Vec<crate::remote::IoVec>> = Vec::new();
    let mut idx: usize = 0;
    let mut cur: u64 = if n > 0 {
        regs[0].0
    } else {
        0
    };
    proof {
        if n > 0 {
            assert(rem_of(regs@, 0, cur) =~= regs@);
        }
        lemma_total_len_nonneg(regs@);
    }
    while idx < n
        invariant
            0 <= idx <= n,
            n == regs@.len(),
            valid_intervals(regs@),
            1 <= chunk_size,
            1 <= iov_max,
            chunk == chunk_size as int,
            iov == iov_max as int,
            idx < n ==> regs@[idx as int].0 <= cur < regs@[idx as int].1,
            valid_intervals(rem_of(regs@, idx as int, cur)),
            plan_spec(regs@, chunk, iov) == batches_model(batches@) + plan_spec(
                rem_of(regs@, idx as int, cur),
                chunk,
                iov,
            ),
        decreases total_len(rem_of(regs@, idx as int, cur)),
    {
        let ghost rem0 = rem_of(regs@, idx as int, cur);
        let ghost idx0 = idx as int;
        let ghost cur0 = cur;
        let mut batch: Vec<crate::remote::IoVec> = Vec::new();
        let mut budget: u64 = chunk_size as u64;
        let mut cnt: usize = iov_max;
        while idx < n && budget > 0 && cnt > 0
            invariant
                idx0 <= idx <= n,
                n == regs@.len(),
                valid_intervals(regs@),
                chunk == chunk_size as int,
                iov == iov_max as int,
                1 <= chunk_size,
                1 <= iov_max,
                budget <= chunk,
                cnt <= iov,
                idx < n ==> regs@[idx as int].0 <= cur < regs@[idx as int].1,
                valid_intervals(rem_of(regs@, idx as int, cur)),
                batch@.len() == 0 ==> (budget == chunk && cnt == iov && idx == idx0 && cur
                    == cur0),
                take_batch(rem0, chunk, iov) == (
                    batch_model(batch@) + take_batch(
                        rem_of(regs@, idx as int, cur),
                        budget as int,
                        cnt as int,
                    ).0,
                    take_batch(rem_of(regs@, idx as int, cur), budget as int, cnt as int).1,
                ),
            decreases total_len(rem_of(regs@, idx as int, cur)),
        {
            let ghost rem_in = rem_of(regs@, idx as int, cur);
            let ghost budget0 = budget as int;
            let ghost cnt0 = cnt as int;
            let ghost batch_in = batch@;
            let re = regs[idx].1;
            let len_r = re - cur;
            proof {
                assert(rem_in[0] == (cur, re));
                assert(rem_in.drop_first() =~= regs@.subrange(idx as int + 1, n as int));
                lemma_total_len_nonneg(rem_in);
            }
            if len_r <= budget {
                batch.push(crate::remote::IoVec { base: cur, len: len_r as usize });
                budget = budget - len_r;
                cnt = cnt - 1;
                idx = idx + 1;
                if idx < n {
                    cur = regs[idx].0;
                }
            } else {
                batch.push(crate::remote::IoVec { base: cur, len: budget as usize });
                let ghost qe = (cur + budget) as u64;
                cur = cur + budget;
                budget = 0;
            }
            proof {
                let rem_out = rem_of(regs@, idx as int, cur);
                let tb_in = take_batch(rem_in, budget0, cnt0);
                let tb_out = take_batch(rem_out, budget as int, cnt as int);
                let iv = batch@.last();
                assert(batch@ =~= batch_in + seq![iv]);
                assert(batch_model(batch@) =~= batch_model(batch_in) + seq![iv.interval()]);
                if budget0 >= rem_in[0].1 - rem_in[0].0 {
                    // the whole first region was taken
                    assert(iv.interval() == rem_in[0]) by {
                        assert(iv.base == rem_in[0].0);
                        assert(iv.len as int == rem_in[0].1 - rem_in[0].0);
                    }
                    assert(rem_in.drop_first() =~= rem_out);
                    assert(tb_in == (seq![rem_in[0]] + tb_out.0, tb_out.1));
                    assert(batch_model(batch_in) + tb_in.0 =~= batch_model(batch@) + tb_out.0);
                } else {
                    // a partial request exhausted the budget
                    assert(iv.interval() == (rem_in[0].0, (rem_in[0].0 + budget0) as u64)) by {
                        assert(iv.base == rem_in[0].0);
                        assert(iv.len as int == budget0);
                    }
                    assert(tb_in == (
                        seq![(rem_in[0].0, (rem_in[0].0 + budget0) as u64)],
                        seq![((rem_in[0].0 + budget0) as u64, rem_in[0].1)]
                            + rem_in.drop_first(),
                    ));
                    assert(rem_out =~= tb_in.1);
                    assert(tb_out == (Seq::<(u64, u64)>::empty(), rem_out));
                    assert(batch_model(batch_in) + tb_in.0 =~= batch_model(batch@) + tb_out.0);
                }
                lemma_total_len_nonneg(rem_out);
                lemma_take_batch(rem_in, budget0, cnt0);
                let len0 = rem_in[0].1 - rem_in[0].0;
                assert(total_len(rem_in) == len0 + total_len(rem_in.drop_first()));
                if budget0 >= len0 {
                    assert(total_len(rem_out) == total_len(rem_in) - len0);
                } else {
                    assert(rem_out.drop_first() =~= rem_in.drop_first());
                    assert(rem_out[0] == ((rem_in[0].0 + budget0) as u64, rem_in[0].1));
                    assert(total_len(rem_out) == (rem_out[0].1 - rem_out[0].0) + total_len(
                        rem_out.drop_first(),
                    ));
                    assert(total_len(rem_out) == total_len(rem_in) - budget0);
                }
            }
        }
        batches.push(batch);
        proof {
            let rem_now = rem_of(regs@, idx as int, cur);
            let tb_now = take_batch(rem_now, budget as int, cnt as int);
            assert(tb_now == (Seq::<(u64, u64)>::empty(), rem_now));
            let last = batches@.last();
            assert(take_batch(rem0, chunk, iov) == (batch_model(last@), rem_now));
            assert(batch_model(last@) + Seq::<(u64, u64)>::empty() =~= batch_model(last@));
            // the batch is not empty: had it stayed empty, the inner loop
            // would not have stopped
            assert(last@.len() > 0);
            assert(rem0.len() > 0);
            assert(plan_spec(rem0, chunk, iov) == seq![batch_model(last@)] + plan_spec(
                rem_now,
                chunk,
                iov,
            ));
            assert(batches_model(batches@) =~= batches_model(batches@.drop_last()) + seq![
                batch_model(last@),
            ]);
            assert(batches_model(batches@) + plan_spec(rem_now, chunk, iov)
                =~= batches_model(batches@.drop_last()) + plan_spec(rem0, chunk, iov));
            lemma_take_batch(rem0, chunk, iov);
            lemma_total_len_nonneg(batch_model(last@));
            lemma_total_len_nonneg(rem_now);
        }
    }
    proof {
        assert(rem_of(regs@, idx as int, cur) =~= Seq::<(u64, u64)>::empty());
        assert(plan_spec(rem_of(regs@, idx as int, cur), chunk, iov) =~= Seq::<
            Seq<(u64, u64)>,
        >::empty());
        assert(batches_model(batches@) + plan_spec(rem_of(regs@, idx as int, cur), chunk, iov)
            =~= batches_model(batches@));
    }
    batches
}

} // verus!
