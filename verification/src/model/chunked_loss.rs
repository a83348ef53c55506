//! The plan of a memory-bounded cross-entropy.
//!
//! The ordinary loss materializes `[batch, seq, vocab]` logits. This one
//! flattens positions and handles at most a chunk of rows at once, in the
//! forward and again in the backward.

use vstd::prelude::*;

use crate::math;

verus! {

/// Positions per recomputed head projection.
pub const DEFAULT_CHUNK: usize = 256;

/// The shapes of a loss.
#[derive(Debug, Clone, Copy)]
pub struct Shapes {
    /// Batch, sequence and width of the hidden states.
    pub hidden: (usize, usize, usize),
    /// Vocabulary and width of the head.
    pub weight: (usize, usize),
    /// Batch and sequence of the targets.
    pub targets: (usize, usize),
}

impl Shapes {
    /// The head is as wide as the hidden states, and every position has a
    /// target.
    pub open spec fn agreed(self) -> bool {
        &&& self.hidden.2 == self.weight.1
        &&& self.hidden.0 == self.targets.0
        &&& self.hidden.1 == self.targets.1
    }

    /// Whether the shapes agree.
    pub fn agree(&self) -> (r: bool)
        ensures
            r == self.agreed(),
    {
        self.hidden.2 == self.weight.1 && self.hidden.0 == self.targets.0 && self.hidden.1
            == self.targets.1
    }

    /// How many positions there are.
    pub fn positions(&self) -> (r: usize)
        requires
            self.hidden.0 * self.hidden.1 <= usize::MAX,
        ensures
            r == self.hidden.0 * self.hidden.1,
    {
        math::times(self.hidden.0, self.hidden.1)
    }
}

/// The rows of chunk `k` of `positions` positions.
pub open spec fn chunk_rows(positions: int, chunk: int, k: int) -> (int, int) {
    (
        k * chunk,
        if (k + 1) * chunk < positions {
            (k + 1) * chunk
        } else {
            positions
        },
    )
}

/// The rows of each chunk: where it starts and where it ends.
pub fn chunks(positions: usize, chunk: usize) -> (out: Vec<(usize, usize)>)
    requires
        chunk > 0,
    ensures
        out@.len() == math::quotient_up(positions as int, chunk as int),
        forall|k: int|
            0 <= k < out@.len() ==> ((#[trigger] out@[k]).0 as int, out@[k].1 as int) == chunk_rows(
                positions as int,
                chunk as int,
                k,
            ),
{
    let n = math::div_up(positions, chunk);
    let mut out: Vec<(usize, usize)> = Vec::new();
    let mut start: usize = 0;
    let mut k: usize = 0;
    proof {
        math::quotient_up_covers(positions as int, chunk as int);
        assert(0 * chunk == 0);
    }
    while k < n
        invariant
            chunk > 0,
            k <= n,
            k < n ==> start == k * chunk,
            n == math::quotient_up(positions as int, chunk as int),
            n * chunk >= positions,
            positions > 0 ==> (n - 1) * chunk < positions,
            positions == 0 ==> n == 0,
            out@.len() == k,
            forall|i: int|
                0 <= i < k ==> ((#[trigger] out@[i]).0 as int, out@[i].1 as int) == chunk_rows(
                    positions as int,
                    chunk as int,
                    i,
                ),
        decreases n - k,
    {
        proof {
            assert(k * chunk <= (n - 1) * chunk) by (nonlinear_arith)
                requires
                    k <= n - 1,
                    chunk > 0,
            ;
            assert((k + 1) * chunk == k * chunk + chunk) by (nonlinear_arith);
        }
        let end = if positions - start > chunk {
            start + chunk
        } else {
            positions
        };
        out.push((start, end));
        k = k + 1;
        proof {
            if k < n {
                assert(k * chunk <= (n - 1) * chunk) by (nonlinear_arith)
                    requires
                        k <= n - 1,
                        chunk > 0,
                ;
            }
        }
        start = end;
    }
    out
}

/// The chunks partition the positions: each position is a row of exactly one,
/// and none has more rows than a chunk.
pub proof fn every_position_is_in_one_chunk(positions: int, chunk: int, position: int) -> (k: int)
    requires
        chunk > 0,
        0 <= position < positions,
    ensures
        0 <= k < math::quotient_up(positions, chunk),
        chunk_rows(positions, chunk, k).0 <= position < chunk_rows(positions, chunk, k).1,
        chunk_rows(positions, chunk, k).1 - chunk_rows(positions, chunk, k).0 <= chunk,
        forall|j: int|
            0 <= j && (#[trigger] chunk_rows(positions, chunk, j)).0 <= position < chunk_rows(
                positions,
                chunk,
                j,
            ).1 ==> j == k,
{
    let k = position / chunk;
    vstd::arithmetic::div_mod::lemma_fundamental_div_mod(position, chunk);
    vstd::arithmetic::div_mod::lemma_mod_bound(position, chunk);
    vstd::arithmetic::div_mod::lemma_div_pos_is_pos(position, chunk);
    assert(chunk * k == k * chunk) by (nonlinear_arith);
    assert((k + 1) * chunk == k * chunk + chunk) by (nonlinear_arith);
    math::quotient_up_covers(positions, chunk);
    let n = math::quotient_up(positions, chunk);
    assert(k < n) by (nonlinear_arith)
        requires
            k * chunk < n * chunk,
            chunk > 0,
    ;
    assert forall|j: int|
        0 <= j && (#[trigger] chunk_rows(positions, chunk, j)).0 <= position < chunk_rows(
            positions,
            chunk,
            j,
        ).1 implies j == k by {
        assert(position < (j + 1) * chunk);
        assert(j == k) by (nonlinear_arith)
            requires
                j * chunk <= position < (j + 1) * chunk,
                k * chunk <= position < (k + 1) * chunk,
                chunk > 0,
        ;
    }
    k
}

/// The chunks run through the positions without a gap, from the first to the last:
/// each starts where the one before ends, and all but the last are full.
pub proof fn chunks_run_through_the_positions(
    positions: usize,
    chunk: usize,
    out: Vec<(usize, usize)>,
    k: int,
)
    requires
        chunk > 0,
        call_ensures(chunks, (positions, chunk), out),
        0 <= k < out@.len() || positions == 0,
    ensures
        positions == 0 ==> out@.len() == 0,
        positions > 0 ==> {
            &&& out@.len() > 0
            &&& out@[0].0 == 0
            &&& out@.last().1 == positions
            &&& out@[k].0 < out@[k].1
            &&& k + 1 < out@.len() ==> out@[k].1 - out@[k].0 == chunk
            &&& k + 1 < out@.len() ==> out@[k + 1].0 == out@[k].1
            &&& k + 1 == out@.len() ==> out@[k].1 - out@[k].0 <= chunk
        },
{
    let (p, c) = (positions as int, chunk as int);
    math::quotient_up_covers(p, c);
    let n = math::quotient_up(p, c);
    if positions > 0 {
        assert(n > 0) by {
            if n <= 0 {
                assert(n * c <= 0) by (nonlinear_arith)
                    requires
                        n <= 0,
                        c > 0,
                ;
            }
        }
        assert(0 * c == 0);
        assert(out@[0].0 == chunk_rows(p, c, 0).0);
        assert(out@[n - 1].1 == chunk_rows(p, c, n - 1).1);
        assert((k + 1) * c == k * c + c) by (nonlinear_arith);
        assert(k * c <= (n - 1) * c) by (nonlinear_arith)
            requires
                k <= n - 1,
                c > 0,
        ;
        if k + 1 < n {
            assert((k + 1) * c <= (n - 1) * c) by (nonlinear_arith)
                requires
                    k + 1 <= n - 1,
                    c > 0,
            ;
            assert(out@[k + 1].0 == chunk_rows(p, c, k + 1).0);
        }
    } else if n > 0 {
        assert(math::quotient_up(0, c) == 0) by {
            vstd::arithmetic::div_mod::lemma_basic_div(c - 1, c);
        }
    }
}

/// A loss can be taken where the head is as wide as what it reads and there is a
/// target for every position, of which a sequence has one for each token.
pub proof fn losses_need_a_target_for_each_position(s: Shapes, agree: bool, positions: usize)
    requires
        call_ensures(Shapes::agree, (&s,), agree),
        call_ensures(Shapes::positions, (&s,), positions),
    ensures
        agree <==> s.weight.1 == s.hidden.2 && (s.targets.0, s.targets.1) == (
            s.hidden.0,
            s.hidden.1,
        ),
        agree ==> positions == s.targets.0 * s.targets.1,
        s.hidden.1 > 0 ==> positions as int / (s.hidden.1 as int) == s.hidden.0,
{
    if s.hidden.1 > 0 {
        vstd::arithmetic::div_mod::lemma_fundamental_div_mod_converse(
            positions as int,
            s.hidden.1 as int,
            s.hidden.0 as int,
            0,
        );
    }
}

} // verus!
