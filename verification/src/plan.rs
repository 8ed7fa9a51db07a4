use vstd::prelude::*;

verus! {

/// The per-worker chunk span: the total size divided by the worker
/// count, rounded up.
pub open spec fn span_of(total: int, workers: int) -> int {
    (total + workers - 1) / workers
}

/// Worker `i`'s range under the partition rule: it starts `i` spans in
/// and runs to the end of its span or the end of the resource, whichever
/// comes first, both bounds inclusive.
pub open spec fn range_of(total: int, workers: int, i: int) -> (int, int) {
    let span = span_of(total, workers);
    (
        i * span,
        if (i + 1) * span - 1 <= total - 1 {
            (i + 1) * span - 1
        } else {
            total - 1
        },
    )
}

/// Splits `[0, total)` across up to `workers` ranges: worker `i` owns
/// `[i * span, min((i + 1) * span - 1, total - 1)]` with
/// `span = ceil(total / workers)`; a worker whose start would lie past
/// the end of the resource is not created. An empty resource yields no
/// ranges.
#[verifier::loop_isolation(false)]
pub fn plan_ranges(total: usize, workers: usize) -> (r: Vec<(usize, usize)>)
    requires
        workers >= 1,
    ensures
        r@.len() <= workers,
        forall|i: int| 0 <= i < r@.len() ==> (r@[i].0 as int, r@[i].1 as int) == range_of(
            total as int,
            workers as int,
            i,
        ),
        forall|i: int| 0 <= i < r@.len() ==> r@[i].0 < total,
        r@.len() == 0 <==> total == 0,
        r@.len() > 0 ==> r@[r@.len() - 1].1 == total - 1,
{
    let mut r: Vec<(usize, usize)> = Vec::new();
    if total == 0 {
        return r;
    }
    let q: usize = total / workers;
    proof {
        if total % workers != 0 {
            assert(workers >= 2) by {
                assert(total % 1 == 0) by (nonlinear_arith);
            }
            assert(q < usize::MAX) by (nonlinear_arith)
                requires
                    workers >= 2,
                    total <= usize::MAX,
                    q == total / workers,
            ;
        }
    }
    let span: usize = if total % workers == 0 {
        q
    } else {
        q + 1
    };
    proof {
        assert(span as int == span_of(total as int, workers as int)) by (nonlinear_arith)
            requires
                workers >= 1,
                total >= 1,
                span as int == total as int / workers as int + (if total as int % workers as int
                    == 0 {
                    0int
                } else {
                    1int
                }),
        ;
        assert(span >= 1) by (nonlinear_arith)
            requires
                workers >= 1,
                total >= 1,
                span as int == (total as int + workers as int - 1) / (workers as int),
        ;
        assert(span as int * workers as int >= total as int) by (nonlinear_arith)
            requires
                workers >= 1,
                total >= 1,
                span as int == (total as int + workers as int - 1) / (workers as int),
        ;
    }
    let mut start: usize = 0;
    let mut i: usize = 0;
    while i < workers && start < total
        invariant
            span >= 1,
            span as int == span_of(total as int, workers as int),
            span as int * workers as int >= total as int,
            i <= workers,
            start <= total,
            start as int == if i as int * span as int <= total as int {
                i as int * span as int
            } else {
                total as int
            },
            r@.len() == i,
            forall|j: int| 0 <= j < r@.len() ==> (r@[j].0 as int, r@[j].1 as int) == range_of(
                total as int,
                workers as int,
                j,
            ),
            forall|j: int| 0 <= j < r@.len() ==> r@[j].0 < total,
        decreases workers - i,
    {
        let remaining: usize = total - start;
        let end: usize = if span <= remaining - 1 {
            start + span - 1
        } else {
            total - 1
        };
        proof {
            assert((i as int + 1) * (span as int) == i as int * span as int + span as int)
                by (nonlinear_arith);
            assert((end as int) == range_of(total as int, workers as int, i as int).1);
        }
        r.push((start, end));
        i = i + 1;
        if span <= remaining - 1 {
            start = start + span;
        } else {
            start = total;
            proof {
                assert(i as int * span as int >= total as int) by (nonlinear_arith)
                    requires
                        (i as int - 1) * span as int + span as int >= total as int,
                        i as int * span as int == (i as int - 1) * span as int + span as int,
                ;
            }
        }
        proof {
            assert(i as int * span as int == (i as int - 1) * span as int + span as int)
                by (nonlinear_arith);
        }
    }
    proof {
        assert(r@.len() > 0);
        let li = r@.len() - 1;
        assert(i as int == li + 1);
        assert((r@[li].0 as int, r@[li].1 as int) == range_of(total as int, workers as int, li));
        if start == total {
            assert(i as int * span as int >= total as int);
        } else {
            assert(i == workers);
            assert(i as int * span as int >= total as int) by (nonlinear_arith)
                requires
                    span as int * workers as int >= total as int,
                    i as int == workers as int,
            ;
        }
        assert((li + 1) * span as int == i as int * span as int);
        assert(range_of(total as int, workers as int, li).1 == total as int - 1);
    }
    r
}

} // verus!
