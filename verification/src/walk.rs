//! The table-driven random walk: a single integer state stepped through the
//! transition table by independently drawn generator indices.  Each worker of
//! the benchmark owns one walk and one random generator; the table itself is
//! shared read-only.

use crate::table::TransTable;
use rand::Rng;
use vstd::prelude::*;

verus! {

#[verifier::external_type_specification]
#[verifier::external_body]
pub struct ExThreadRng(rand::rngs::ThreadRng);

/// Relies on rand::thread_rng: a fresh handle to the thread-local random
/// generator.  Nothing is assumed of the values it will produce.
#[verifier::external_body]
fn fresh_rng() -> rand::rngs::ThreadRng {
    rand::thread_rng()
}

/// Relies on rand's Rng::gen_range over `0..n`: returns a uniform index
/// strictly below `n`; it panics only on an empty range, which the
/// precondition rules out.
#[verifier::external_body]
fn draw_index(rng: &mut rand::rngs::ThreadRng, n: usize) -> (r: usize)
    requires
        n > 0,
    ensures
        r < n,
{
    rng.gen_range(0..n)
}

/// The state reached from `s0` after looking up each draw in order.
pub open spec fn walk_spec(t: TransTable, s0: int, draws: Seq<usize>) -> int
    decreases draws.len(),
{
    if draws.len() == 0 {
        s0
    } else {
        t.spec_at(walk_spec(t, s0, draws.drop_last()), draws.last() as int)
    }
}

/// No walk over a well-formed table ever leaves the id range: every
/// intermediate state, after any prefix of in-range draws, is a valid id.
pub proof fn lemma_walk_in_range(t: TransTable, s0: int, draws: Seq<usize>)
    requires
        t.wf(),
        t.size > 0,
        0 <= s0 < t.size,
        forall|k: int| 0 <= k < draws.len() ==> (#[trigger] draws[k]) < t.size,
    ensures
        0 <= walk_spec(t, s0, draws) < t.size,
    decreases draws.len(),
{
    if draws.len() > 0 {
        lemma_walk_in_range(t, s0, draws.drop_last());
        let w = walk_spec(t, s0, draws.drop_last());
        let d = draws.last() as int;
        assert(w * t.size + d < t.size * t.size) by (nonlinear_arith)
            requires
                0 <= w < t.size && 0 <= d < t.size,
        ;
        assert(t.cells@[w * t.size + d] < t.size);
    }
}

/// Every prefix of a walk stays in range, not only its final state.
pub proof fn lemma_walk_prefixes_in_range(t: TransTable, s0: int, draws: Seq<usize>, k: int)
    requires
        t.wf(),
        t.size > 0,
        0 <= s0 < t.size,
        forall|j: int| 0 <= j < draws.len() ==> (#[trigger] draws[j]) < t.size,
        0 <= k <= draws.len(),
    ensures
        0 <= walk_spec(t, s0, draws.take(k)) < t.size,
{
    lemma_walk_in_range(t, s0, draws.take(k));
}

/// One benchmark walk: starts at id 0, draws `steps` uniform generator
/// indices below the table width, records each draw, and steps through the
/// table.  Returns the final state, which the specification pins down as the
/// fold of the recorded draws over the table.
pub fn test_lut(lut: &TransTable, steps: usize, draws: &mut Vec<usize>) -> (state: usize)
    requires
        lut.wf(),
        lut.size > 0,
    ensures
        final(draws)@.len() == steps,
        forall|k: int| 0 <= k < steps ==> (#[trigger] final(draws)@[k]) < lut.size,
        state as int == walk_spec(*lut, 0, final(draws)@),
        state < lut.size,
{
    draws.clear();
    let mut rng = fresh_rng();
    let mut state: usize = 0;
    let mut k: usize = 0;
    while k < steps
        invariant
            lut.wf(),
            lut.size > 0,
            k <= steps,
            draws@.len() == k,
            forall|s: int| 0 <= s < k ==> (#[trigger] draws@[s]) < lut.size,
            state < lut.size,
            state as int == walk_spec(*lut, 0, draws@),
        decreases steps - k,
    {
        let ghost dpre = draws@;
        let d = draw_index(&mut rng, lut.size);
        draws.push(d);
        state = lut.at(state, d) as usize;
        proof {
            assert(draws@.drop_last() =~= dpre);
            assert(draws@.last() == d);
        }
        k += 1;
    }
    state
}

} // verus!
