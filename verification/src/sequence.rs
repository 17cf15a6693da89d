//! The Collatz sequence generator.
//!
//! From a positive start value the generator applies the Collatz rule —
//! halve an even value, send an odd value to three times itself plus one —
//! and emits every produced value in order, the terminal 1 included. The
//! start value itself is not emitted. Whether every start value reaches 1
//! is the open Collatz conjecture, so the loop carries an explicit step
//! bound: a `Vec` cannot hold more than `usize::MAX` elements, and the
//! contract states what holds when 1 was reached within that many steps.

use vstd::prelude::*;

use crate::big::Big;

verus! {

/// One application of the Collatz rule.
pub open spec fn collatz_next(n: nat) -> nat {
    if n % 2 == 0 {
        n / 2
    } else {
        3 * n + 1
    }
}

/// The element of the emitted sequence before index `i`: the start value
/// for the first element, else the previous element.
pub open spec fn chain_prev(start: nat, vals: Seq<nat>, i: int) -> nat
    recommends
        0 <= i < vals.len(),
{
    if i == 0 {
        start
    } else {
        vals[i - 1]
    }
}

/// `vals` is the sequence the Collatz rule produces from `start`: each
/// element follows from its predecessor, and 1 ends the sequence and
/// appears nowhere earlier.
pub open spec fn is_collatz_chain(start: nat, vals: Seq<nat>) -> bool {
    &&& forall|i: int| 0 <= i < vals.len() ==> vals[i] == collatz_next(
        #[trigger] chain_prev(start, vals, i),
    )
    &&& forall|i: int| 0 <= i < vals.len() - 1 ==> #[trigger] vals[i] != 1
}

/// The values of a sequence of `Big`s.
pub open spec fn seq_values(s: Seq<Big>) -> Seq<nat> {
    s.map(|i: int, b: Big| b.value())
}

/// The rule keeps values positive, the invariant that lets every emitted
/// element be fed back through the positive-decimal line format.
pub proof fn lemma_collatz_next_positive(n: nat)
    requires
        n >= 1,
    ensures
        collatz_next(n) >= 1,
{
    if n % 2 == 0 {
        assert(n >= 2);
    }
}

/// Applies the Collatz rule once.
pub fn collatz_step(n: &Big) -> (r: Big)
    ensures
        r.wf(),
        r.value() == collatz_next(n.value()),
{
    if n.is_even() {
        n.div2()
    } else {
        n.times_u32(3).plus_u32(1)
    }
}

/// Emits the Collatz sequence of `start`, in order, ending with the first 1
/// reached. The one case the contract leaves open is a run of `usize::MAX`
/// steps without meeting 1, which no machine completes.
pub fn generate(start: &Big) -> (r: Vec<Big>)
    requires
        start.wf(),
        start.value() >= 1,
    ensures
        forall|i: int| 0 <= i < r@.len() ==> (#[trigger] r@[i]).wf() && r@[i].value() >= 1,
        is_collatz_chain(start.value(), seq_values(r@)),
        r@.len() < usize::MAX ==> (r@.len() == 0 <==> start.value() == 1),
        0 < r@.len() < usize::MAX ==> r@[r@.len() - 1].value() == 1,
        start.value() % 2 == 0 ==> r@.len() > 0 && r@[0].value() == start.value() / 2,
        start.value() % 2 == 1 && start.value() > 1 ==> r@.len() > 0 && r@[0].value() == 3
            * start.value() + 1,
{
    let mut out: Vec<Big> = Vec::new();
    let mut cur: Big = start.dup();
    while !cur.is_one() && out.len() < usize::MAX
        invariant
            start.wf(),
            start.value() >= 1,
            cur.wf(),
            cur.value() >= 1,
            forall|i: int| 0 <= i < out@.len() ==> (#[trigger] out@[i]).wf() && out@[i].value()
                >= 1,
            cur.value() == if out@.len() == 0 {
                start.value()
            } else {
                out@[out@.len() - 1].value()
            },
            is_collatz_chain(start.value(), seq_values(out@)),
            start.value() == 1 ==> out@.len() == 0,
        decreases usize::MAX - out.len(),
    {
        proof {
            lemma_collatz_next_positive(cur.value());
        }
        let next = collatz_step(&cur);
        let next_cur = next.dup();
        proof {
            let vals = seq_values(out@);
            let vals2 = seq_values(out@.push(next));
            assert(vals2.drop_last() =~= vals);
            assert forall|i: int| 0 <= i < vals2.len() implies vals2[i] == collatz_next(
                #[trigger] chain_prev(start.value(), vals2, i),
            ) by {
                if i < vals.len() {
                    assert(vals[i] == collatz_next(chain_prev(start.value(), vals, i)));
                    assert(chain_prev(start.value(), vals2, i) == chain_prev(
                        start.value(),
                        vals,
                        i,
                    ));
                }
            }
            assert forall|i: int| 0 <= i < vals2.len() - 1 implies #[trigger] vals2[i]
                != 1 by {
                if i == vals.len() - 1 {
                    assert(vals2[i] == cur.value());
                } else {
                    assert(vals2[i] == vals[i]);
                    assert(vals[i] != 1);
                }
            }
        }
        out.push(next);
        cur = next_cur;
    }
    proof {
        let vals = seq_values(out@);
        if out@.len() > 0 {
            assert(vals[out@.len() - 1] == cur.value());
        }
        if start.value() != 1 {
            assert(out@.len() > 0);
            assert(vals[0] == collatz_next(chain_prev(start.value(), vals, 0)));
            assert(out@[0].value() == collatz_next(start.value()));
        }
        if start.value() % 2 == 0 {
            assert(start.value() != 1);
        }
    }
    out
}

} // verus!
