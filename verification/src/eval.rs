//! How much of the held-out split a validation pass covers.

use vstd::prelude::*;

use crate::data::batch::{eval_rows, index_in_evals, Batch, Batcher};
use crate::math;

verus! {

/// How many batches a pass runs: as many as are asked for, but at least one and
/// no more than there are.
pub open spec fn clamped(asked: int, evals: int) -> int {
    if asked < 1 {
        1
    } else if asked > evals {
        evals
    } else {
        asked
    }
}

/// How many batches a pass over `data` runs when `asked` for so many. A corpus
/// too small for a full batch is evaluated on the short one it can fill; asking
/// for no batches runs one, rather than dividing by no tokens at all.
pub fn batches(data: &Batcher, asked: usize) -> (r: usize)
    requires
        data.well_formed(),
        data.seq_len > 0,
        data.batch > 0,
    ensures
        r == clamped(asked as int, data.spec_evals()),
        1 <= r <= data.spec_evals(),
{
    let evals = data.evals();
    if asked < 1 {
        1
    } else if asked > evals {
        evals
    } else {
        asked
    }
}

/// The tokens that a batch predicts, by which its loss is weighed.
pub fn counted(batch: &Batch) -> (r: u64)
    requires
        batch.rows * batch.seq_len <= usize::MAX,
    ensures
        r == batch.rows * batch.seq_len,
{
    math::times(batch.rows, batch.seq_len) as u64
}

/// The tokens that the first `n` evaluation batches predict.
pub open spec fn total_counted(windows: int, batch: int, seq_len: int, n: nat) -> int
    decreases n,
{
    if n == 0 {
        0
    } else {
        total_counted(windows, batch, seq_len, (n - 1) as nat) + eval_rows(
            windows,
            batch,
            n - 1,
        ) * seq_len
    }
}

/// A pass over the first `n` batches predicts `n * batch` windows, or all that
/// there are.
pub proof fn a_pass_covers_its_windows(windows: int, batch: int, seq_len: int, n: nat)
    requires
        windows >= 1,
        batch > 0,
        seq_len > 0,
        n <= crate::data::batch::batch_count(windows, batch),
    ensures
        total_counted(windows, batch, seq_len, n) == (if n * batch < windows {
            n * batch
        } else {
            windows
        }) * seq_len,
    decreases n,
{
    if n == 0 {
        assert(0 * batch == 0 && 0 * seq_len == 0);
    } else {
        let k = n - 1;
        a_pass_covers_its_windows(windows, batch, seq_len, k as nat);
        index_in_evals(windows, batch, k);
        assert(n * batch == k * batch + batch) by (nonlinear_arith)
            requires
                n == k + 1,
        ;
        let rows = eval_rows(windows, batch, k);
        let done = k * batch;
        assert((done + rows) * seq_len == done * seq_len + rows * seq_len) by (nonlinear_arith);
    }
}

/// A pass runs the number of batches that is nearest to what was asked for, of
/// those that it can run: one at least, and no more than there are.
pub proof fn passes_run_what_was_asked_for(data: Batcher, asked: usize, evals: usize, r: usize, n: int)
    requires
        data.well_formed(),
        data.seq_len > 0,
        data.batch > 0,
        call_ensures(Batcher::evals, (&data,), evals),
        call_ensures(batches, (&data, asked), r),
        1 <= n <= evals,
    ensures
        1 <= r <= evals,
        1 <= asked <= evals ==> r == asked,
        (if r < asked {
            asked - r
        } else {
            r - asked
        }) <= (if n < asked {
            asked - n
        } else {
            n - asked
        }),
{
}

/// What a batch counts is what it predicts: a token for each cell of its target.
pub proof fn batches_count_what_they_predict(data: Batcher, index: usize, batch: Batch, tokens: u64)
    requires
        data.well_formed(),
        data.seq_len > 0,
        data.batch > 0,
        index < data.spec_evals(),
        call_ensures(Batcher::eval, (&data, index), batch),
        call_ensures(counted, (&batch,), tokens),
    ensures
        tokens == batch.target@.len(),
        tokens == batch.input@.len(),
{
    let starts = crate::data::batch::eval_starts(
        data.spec_windows(),
        data.batch as int,
        data.seq_len as int,
        index as int,
    );
    crate::data::batch::rows_are_windows(
        data.shards.tokens@,
        starts,
        data.seq_len as int,
        0,
        0,
        0,
    );
    crate::data::batch::rows_are_windows(
        data.shards.tokens@,
        starts,
        data.seq_len as int,
        1,
        0,
        0,
    );
}

} // verus!
