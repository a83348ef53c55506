//! Turning a split into batches of windows.
//!
//! Every training batch is a pure function of its seed and its step number, so
//! resuming a run at step 40 000 replays exactly the batches the first attempt
//! would have seen.

use rand::{Rng, SeedableRng};
use rand_chacha::ChaCha8Rng;
use vstd::prelude::*;

use crate::data::shard::Shards;

verus! {

/// What ChaCha8, seeded with `seed` and standing at word `pos` of its output,
/// draws uniformly from `0..=last`, and the word it stands at afterwards.
pub uninterp spec fn chacha_draw(seed: u64, pos: u128, last: usize) -> (usize, u128);

/// `rand::Rng::random_range` over `0..=last` on a
/// `rand_chacha::ChaCha8Rng` seeded by `SeedableRng::seed_from_u64` and moved
/// by `set_word_pos`; then `get_word_pos`. The draw lies in the range.
#[verifier::external_body]
fn draw(seed: u64, pos: u128, last: usize) -> (r: (usize, u128))
    ensures
        r == chacha_draw(seed, pos, last),
        r.0 <= last,
{
    let mut rng = ChaCha8Rng::seed_from_u64(seed);
    rng.set_word_pos(pos);
    let value = rng.random_range(0..=last);
    (value, rng.get_word_pos())
}

/// The first `n` draws from `0..=last`, and the word the generator then stands
/// at.
pub open spec fn draws(seed: u64, last: usize, n: nat) -> (Seq<usize>, u128)
    decreases n,
{
    if n == 0 {
        (Seq::empty(), 0)
    } else {
        let before = draws(seed, last, (n - 1) as nat);
        let next = chacha_draw(seed, before.1, last);
        (before.0.push(next.0), next.1)
    }
}

/// Rows of `seq_len` tokens, the one of each start after the other, taken
/// `shift` tokens to the right.
pub open spec fn rows(
    tokens: Seq<u16>,
    starts: Seq<usize>,
    seq_len: int,
    shift: int,
) -> Seq<i32>
    decreases starts.len(),
{
    if starts.len() == 0 {
        Seq::empty()
    } else {
        rows(tokens, starts.drop_last(), seq_len, shift) + Seq::new(
            seq_len as nat,
            |i: int| tokens[starts.last() + shift + i] as i32,
        )
    }
}

/// One training example pair, row by row: `target` is `input` shifted left by
/// one token.
#[derive(Debug)]
pub struct Batch {
    pub rows: usize,
    pub seq_len: usize,
    pub input: Vec<i32>,
    pub target: Vec<i32>,
}

impl Batch {
    /// It holds the windows that begin at `starts`.
    pub open spec fn holds(self, tokens: Seq<u16>, starts: Seq<usize>, seq_len: usize) -> bool {
        &&& self.rows == starts.len()
        &&& self.seq_len == seq_len
        &&& self.input@ == rows(tokens, starts, seq_len as int, 0)
        &&& self.target@ == rows(tokens, starts, seq_len as int, 1)
    }

    /// The rows and the columns of the batch.
    pub fn dims(&self) -> (r: (usize, usize))
        ensures
            r == (self.rows, self.seq_len),
    {
        (self.rows, self.seq_len)
    }
}

/// A row of a batch is the window that its start begins.
pub proof fn rows_are_windows(
    tokens: Seq<u16>,
    starts: Seq<usize>,
    seq_len: int,
    shift: int,
    row: int,
    column: int,
)
    requires
        0 <= row < starts.len(),
        0 <= column < seq_len,
    ensures
        rows(tokens, starts, seq_len, shift).len() == starts.len() * seq_len,
        0 <= row * seq_len + column < starts.len() * seq_len,
        rows(tokens, starts, seq_len, shift)[row * seq_len + column] == tokens[starts[row] + shift
            + column] as i32,
    decreases starts.len(),
{
    let n = starts.len() as int;
    rows_len(tokens, starts, seq_len, shift);
    rows_len(tokens, starts.drop_last(), seq_len, shift);
    assert((n - 1) * seq_len + seq_len == n * seq_len) by (nonlinear_arith);
    assert(0 <= row * seq_len + column < n * seq_len) by (nonlinear_arith)
        requires
            0 <= row < n,
            0 <= column < seq_len,
    ;
    if row < n - 1 {
        rows_are_windows(tokens, starts.drop_last(), seq_len, shift, row, column);
    }
}

proof fn rows_len(tokens: Seq<u16>, starts: Seq<usize>, seq_len: int, shift: int)
    requires
        seq_len >= 0,
    ensures
        rows(tokens, starts, seq_len, shift).len() == starts.len() * seq_len,
    decreases starts.len(),
{
    if starts.len() > 0 {
        rows_len(tokens, starts.drop_last(), seq_len, shift);
        let n = starts.len() as int;
        assert((n - 1) * seq_len + seq_len == n * seq_len) by (nonlinear_arith);
    } else {
        assert(0 * seq_len == 0);
    }
}

/// The target of every batch is its input, one token on.
pub proof fn targets_are_inputs_shifted(
    batch: Batch,
    tokens: Seq<u16>,
    starts: Seq<usize>,
    row: int,
    column: int,
)
    requires
        batch.holds(tokens, starts, batch.seq_len),
        0 <= row < batch.rows,
        0 <= column < batch.seq_len - 1,
    ensures
        batch.target@[row * batch.seq_len + column] == batch.input@[row * batch.seq_len + column
            + 1],
{
    let n = batch.seq_len as int;
    rows_are_windows(tokens, starts, n, 1, row, column);
    rows_are_windows(tokens, starts, n, 0, row, column + 1);
}

/// Draws windows out of a corpus.
pub struct Batcher {
    pub shards: Shards,
    pub seq_len: usize,
    pub batch: usize,
    pub seed: u64,
}

/// How many whole windows a corpus of `len` tokens holds end to end, each with
/// the token that follows it.
pub open spec fn window_count(len: int, seq_len: int) -> int {
    (len - 1) / seq_len
}

/// How many batches of `batch` rows hold `windows` windows.
pub open spec fn batch_count(windows: int, batch: int) -> int {
    (windows + batch - 1) / batch
}

/// The starts of the windows of an evaluation batch.
pub open spec fn eval_starts(windows: int, batch: int, seq_len: int, index: int) -> Seq<usize> {
    Seq::new(
        eval_rows(windows, batch, index) as nat,
        |i: int| ((index * batch + i) * seq_len) as usize,
    )
}

/// How many rows an evaluation batch has.
pub open spec fn eval_rows(windows: int, batch: int, index: int) -> int {
    if windows - index * batch < batch {
        windows - index * batch
    } else {
        batch
    }
}

impl Batcher {
    /// The corpus holds a window and the token that follows it.
    pub open spec fn well_formed(self) -> bool {
        self.shards.tokens@.len() >= self.seq_len + 1
    }

    /// How many whole windows the corpus holds.
    pub open spec fn spec_windows(self) -> int {
        window_count(self.shards.tokens@.len() as int, self.seq_len as int)
    }

    /// How many evaluation batches the corpus holds.
    pub open spec fn spec_evals(self) -> int {
        batch_count(self.spec_windows(), self.batch as int)
    }

    /// Windows of `seq_len` tokens, `batch` of them at a time.
    pub fn new(shards: Shards, seq_len: usize, batch: usize, seed: u64) -> (r: Self)
        requires
            shards.tokens@.len() >= seq_len + 1,
        ensures
            r.well_formed(),
            r == (Batcher { shards, seq_len, batch, seed }),
    {
        Batcher { shards, seq_len, batch, seed }
    }

    /// The corpus.
    pub fn shards(&self) -> (r: &Shards)
        ensures
            *r == self.shards,
    {
        &self.shards
    }

    /// The batch for training `step`, drawn uniformly at random.
    ///
    /// Uniform offsets rather than a shuffled epoch: at 2 to 20 tokens per
    /// parameter the run never revisits the corpus, so an epoch structure would
    /// only add bookkeeping and a resume hazard.
    pub fn train(&self, step: u64) -> (r: Batch)
        requires
            self.well_formed(),
        ensures
            r.holds(self.shards.tokens@, self.train_starts(step), self.seq_len),
            forall|i: int|
                0 <= i < self.batch ==> (#[trigger] self.train_starts(step)[i]) + self.seq_len
                    < self.shards.tokens@.len(),
            self.train_starts(step).len() == self.batch,
    {
        let seed = self.seed ^ step;
        let last = self.shards.len() - self.seq_len - 1;
        let mut starts: Vec<usize> = Vec::new();
        let mut pos: u128 = 0;
        let mut i: usize = 0;
        while i < self.batch
            invariant
                i <= self.batch,
                starts@.len() == i,
                draws(seed, last, i as nat) == (starts@, pos),
                forall|k: int| 0 <= k < i ==> (#[trigger] starts@[k]) <= last,
            decreases self.batch - i,
        {
            let (start, next) = draw(seed, pos, last);
            starts.push(start);
            pos = next;
            i = i + 1;
        }
        self.gather(&starts)
    }

    /// The starts of the windows of the batch for training `step`.
    pub open spec fn train_starts(self, step: u64) -> Seq<usize> {
        draws(
            self.seed ^ step,
            (self.shards.tokens@.len() - self.seq_len - 1) as usize,
            self.batch as nat,
        ).0
    }

    /// How many whole windows of `seq_len` tokens the corpus holds end to end.
    pub fn windows(&self) -> (r: usize)
        requires
            self.well_formed(),
            self.seq_len > 0,
        ensures
            r == self.spec_windows(),
            r >= 1,
    {
        let len = self.shards.len();
        proof {
            at_least_one(len - 1, self.seq_len as int);
        }
        (len - 1) / self.seq_len
    }

    /// How many non-overlapping evaluation batches the corpus holds.
    ///
    /// Rounded up, so a validation split smaller than one full batch still has
    /// one short batch to give rather than none.
    pub fn evals(&self) -> (r: usize)
        requires
            self.well_formed(),
            self.seq_len > 0,
            self.batch > 0,
        ensures
            r == self.spec_evals(),
            r >= 1,
    {
        let windows = self.windows();
        proof {
            round_up(windows as int, self.batch as int);
        }
        (windows - 1) / self.batch + 1
    }

    /// The `index`-th evaluation batch: contiguous, non-overlapping windows from
    /// the start of the corpus, so every token is predicted exactly once.
    ///
    /// The last batch is short when the corpus does not divide evenly.
    pub fn eval(&self, index: usize) -> (r: Batch)
        requires
            self.well_formed(),
            self.seq_len > 0,
            self.batch > 0,
            index < self.spec_evals(),
        ensures
            r.holds(
                self.shards.tokens@,
                eval_starts(
                    self.spec_windows(),
                    self.batch as int,
                    self.seq_len as int,
                    index as int,
                ),
                self.seq_len,
            ),
            r.rows >= 1,
    {
        let windows = self.windows();
        let ghost len = self.shards.tokens@.len() as int;
        proof {
            index_in_evals(windows as int, self.batch as int, index as int);
            assert(windows * self.seq_len <= len - 1) by {
                vstd::arithmetic::div_mod::lemma_fundamental_div_mod(
                    len - 1,
                    self.seq_len as int,
                );
                assert(self.seq_len as int * windows as int == windows * self.seq_len)
                    by (nonlinear_arith);
                vstd::arithmetic::div_mod::lemma_mod_bound(len - 1, self.seq_len as int);
            }
        }
        let first: usize = index * self.batch;
        let rows = if windows - first < self.batch {
            windows - first
        } else {
            self.batch
        };
        let ghost expected = eval_starts(
            windows as int,
            self.batch as int,
            self.seq_len as int,
            index as int,
        );
        assert(self.shards.tokens.len() <= usize::MAX);
        let mut starts: Vec<usize> = Vec::new();
        let mut i: usize = 0;
        while i < rows
            invariant
                i <= rows,
                first == index * self.batch,
                first + rows <= windows,
                len == self.shards.tokens@.len(),
                windows * self.seq_len <= len - 1,
                len <= usize::MAX,
                starts@.len() == i,
                expected.len() == rows,
                expected == eval_starts(
                    windows as int,
                    self.batch as int,
                    self.seq_len as int,
                    index as int,
                ),
                forall|k: int|
                    0 <= k < i ==> (#[trigger] starts@[k]) == expected[k] && starts@[k]
                        + self.seq_len < len,
            decreases rows - i,
        {
            proof {
                let w = first + i;
                let n = self.seq_len as int;
                assert(w * n + n <= windows * n) by (nonlinear_arith)
                    requires
                        0 <= w < windows,
                        0 <= n,
                ;
                assert(w * n >= 0) by (nonlinear_arith)
                    requires
                        w >= 0,
                        n >= 0,
                ;
            }
            starts.push((first + i) * self.seq_len);
            i = i + 1;
        }
        assert(starts@ =~= expected);
        self.gather(&starts)
    }

    fn gather(&self, starts: &Vec<usize>) -> (r: Batch)
        requires
            forall|i: int|
                0 <= i < starts@.len() ==> (#[trigger] starts@[i]) + self.seq_len
                    < self.shards.tokens@.len(),
        ensures
            r.holds(self.shards.tokens@, starts@, self.seq_len),
    {
        let ghost tokens = self.shards.tokens@;
        let ghost n = self.seq_len as int;
        let mut input: Vec<i32> = Vec::new();
        let mut target: Vec<i32> = Vec::new();
        let mut r: usize = 0;
        while r < starts.len()
            invariant
                r <= starts.len(),
                tokens == self.shards.tokens@,
                n == self.seq_len,
                forall|i: int|
                    0 <= i < starts@.len() ==> (#[trigger] starts@[i]) + self.seq_len
                        < self.shards.tokens@.len(),
                input@ == rows(tokens, starts@.take(r as int), n, 0),
                target@ == rows(tokens, starts@.take(r as int), n, 1),
            decreases starts.len() - r,
        {
            let start = starts[r];
            let ghost before_input = input@;
            let ghost before_target = target@;
            assert(starts@[r as int] + self.seq_len < self.shards.tokens@.len());
            assert(self.shards.tokens.len() <= usize::MAX);
            let window = self.shards.read(start, self.seq_len + 1);
            let mut i: usize = 0;
            while i < self.seq_len
                invariant
                    i <= self.seq_len,
                    n == self.seq_len,
                    start + n + 1 <= tokens.len(),
                    window@ == tokens.subrange(start as int, start + n + 1),
                    input@ == before_input + Seq::new(
                        i as nat,
                        |k: int| tokens[start + 0 + k] as i32,
                    ),
                    target@ == before_target + Seq::new(
                        i as nat,
                        |k: int| tokens[start + 1 + k] as i32,
                    ),
                decreases self.seq_len - i,
            {
                input.push(window[i] as i32);
                target.push(window[i + 1] as i32);
                i = i + 1;
                assert(input@ =~= before_input + Seq::new(
                    i as nat,
                    |k: int| tokens[start + 0 + k] as i32,
                ));
                assert(target@ =~= before_target + Seq::new(
                    i as nat,
                    |k: int| tokens[start + 1 + k] as i32,
                ));
            }
            r = r + 1;
            proof {
                assert(starts@.take(r as int).drop_last() =~= starts@.take(r - 1));
                assert(starts@.take(r as int).last() == start);
                assert(input@ =~= rows(tokens, starts@.take(r as int), n, 0));
                assert(target@ =~= rows(tokens, starts@.take(r as int), n, 1));
            }
        }
        assert(starts@.take(r as int) =~= starts@);
        Batch { rows: starts.len(), seq_len: self.seq_len, input, target }
    }
}

proof fn at_least_one(a: int, d: int)
    requires
        d > 0,
        a >= d,
    ensures
        a / d >= 1,
{
    vstd::arithmetic::div_mod::lemma_fundamental_div_mod(a, d);
    vstd::arithmetic::div_mod::lemma_mod_bound(a, d);
    if a / d <= 0 {
        assert(d * (a / d) <= 0) by (nonlinear_arith)
            requires
                d > 0,
                a / d <= 0,
        ;
    }
}

proof fn round_up(a: int, d: int)
    requires
        d > 0,
        a > 0,
    ensures
        (a + d - 1) / d == (a - 1) / d + 1,
{
    vstd::arithmetic::div_mod::lemma_div_plus_one(a - 1, d);
}

/// An evaluation batch starts before the last window.
pub proof fn index_in_evals(windows: int, batch: int, index: int)
    requires
        windows >= 1,
        batch > 0,
        0 <= index < batch_count(windows, batch),
    ensures
        0 <= index * batch < windows,
{
    round_up(windows, batch);
    vstd::arithmetic::div_mod::lemma_fundamental_div_mod(windows - 1, batch);
    vstd::arithmetic::div_mod::lemma_mod_bound(windows - 1, batch);
    let q = (windows - 1) / batch;
    assert(index * batch <= q * batch) by (nonlinear_arith)
        requires
            index <= q,
            batch > 0,
    ;
    assert(q * batch == batch * q) by (nonlinear_arith);
    assert(index * batch >= 0) by (nonlinear_arith)
        requires
            index >= 0,
            batch > 0,
    ;
}

/// The position that column `column` of row `row` of evaluation batch `index`
/// predicts.
pub open spec fn predicted(batch: int, seq_len: int, index: int, row: int, column: int) -> int {
    (index * batch + row) * seq_len + column + 1
}

/// A cell of an evaluation batch.
pub open spec fn is_cell(
    windows: int,
    batch: int,
    seq_len: int,
    index: int,
    row: int,
    column: int,
) -> bool {
    &&& 0 <= index < batch_count(windows, batch)
    &&& 0 <= row < eval_rows(windows, batch, index)
    &&& 0 <= column < seq_len
}

/// Every token but the first, up to the end of the last whole window, is
/// predicted by some evaluation batch.
pub proof fn every_token_is_predicted(windows: int, batch: int, seq_len: int, position: int) -> (
cell: (int, int, int))
    requires
        windows >= 1,
        batch > 0,
        seq_len > 0,
        1 <= position <= windows * seq_len,
    ensures
        is_cell(windows, batch, seq_len, cell.0, cell.1, cell.2),
        predicted(batch, seq_len, cell.0, cell.1, cell.2) == position,
{
    let p = position - 1;
    let w = p / seq_len;
    let column = p % seq_len;
    vstd::arithmetic::div_mod::lemma_fundamental_div_mod(p, seq_len);
    vstd::arithmetic::div_mod::lemma_mod_bound(p, seq_len);
    vstd::arithmetic::div_mod::lemma_div_pos_is_pos(p, seq_len);
    assert(seq_len * w == w * seq_len) by (nonlinear_arith);
    assert(w < windows) by (nonlinear_arith)
        requires
            w * seq_len < windows * seq_len,
            seq_len > 0,
    ;
    let index = w / batch;
    let row = w % batch;
    vstd::arithmetic::div_mod::lemma_fundamental_div_mod(w, batch);
    vstd::arithmetic::div_mod::lemma_mod_bound(w, batch);
    vstd::arithmetic::div_mod::lemma_div_pos_is_pos(w, batch);
    assert(batch * index == index * batch) by (nonlinear_arith);
    round_up(windows, batch);
    vstd::arithmetic::div_mod::lemma_div_is_ordered(w, windows - 1, batch);
    (index, row, column)
}

/// No token is predicted twice.
pub proof fn no_token_is_predicted_twice(
    windows: int,
    batch: int,
    seq_len: int,
    a: (int, int, int),
    b: (int, int, int),
)
    requires
        windows >= 1,
        batch > 0,
        seq_len > 0,
        is_cell(windows, batch, seq_len, a.0, a.1, a.2),
        is_cell(windows, batch, seq_len, b.0, b.1, b.2),
        predicted(batch, seq_len, a.0, a.1, a.2) == predicted(batch, seq_len, b.0, b.1, b.2),
    ensures
        a == b,
{
    same_pair(a.0 * batch + a.1, a.2, b.0 * batch + b.1, b.2, seq_len);
    same_pair(a.0, a.1, b.0, b.1, batch);
}

proof fn same_pair(q: int, r: int, q2: int, r2: int, d: int)
    requires
        d > 0,
        0 <= r < d,
        0 <= r2 < d,
        q * d + r == q2 * d + r2,
    ensures
        q == q2,
        r == r2,
{
    assert(q == q2) by (nonlinear_arith)
        requires
            d > 0,
            0 <= r < d,
            0 <= r2 < d,
            q * d + r == q2 * d + r2,
    ;
}

/// No two evaluation windows overlap.
pub proof fn evaluation_windows_are_apart(
    batch: int,
    seq_len: int,
    a: int,
    row_a: int,
    b: int,
    row_b: int,
)
    requires
        batch > 0,
        seq_len > 0,
        0 <= row_a < batch,
        0 <= row_b < batch,
        0 <= a < b || (a == b && 0 <= a && row_a < row_b),
    ensures
        (a * batch + row_a) * seq_len + seq_len <= (b * batch + row_b) * seq_len,
{
    let x = a * batch + row_a;
    let y = b * batch + row_b;
    if a < b {
        assert(a * batch + batch <= b * batch) by (nonlinear_arith)
            requires
                a < b,
                batch > 0,
        ;
    }
    assert(x * seq_len + seq_len <= y * seq_len) by (nonlinear_arith)
        requires
            x < y,
            seq_len > 0,
    ;
}

proof fn draws_follow_one_another(seed: u64, last: usize, n: nat) -> (words: Seq<u128>)
    ensures
        draws(seed, last, n).0.len() == n,
        words.len() == n + 1,
        words[0] == 0,
        words[n as int] == draws(seed, last, n).1,
        forall|i: int|
            0 <= i < n ==> #[trigger] chacha_draw(seed, words[i], last) == (
                draws(seed, last, n).0[i],
                words[i + 1],
            ),
    decreases n,
{
    if n == 0 {
        seq![0u128]
    } else {
        let before = draws(seed, last, (n - 1) as nat);
        let words = draws_follow_one_another(seed, last, (n - 1) as nat);
        let all = words.push(draws(seed, last, n).1);
        assert forall|i: int| 0 <= i < n implies #[trigger] chacha_draw(seed, all[i], last) == (
            draws(seed, last, n).0[i],
            all[i + 1],
        ) by {
            if i < n - 1 {
                assert(chacha_draw(seed, words[i], last) == (before.0[i], words[i + 1]));
            }
        }
        all
    }
}

/// Each row of a training batch starts where one generator draws next, which the
/// run's seed and the step seed together. It draws from every start whose window
/// and the token behind it lie in the corpus, so that no window of the corpus is
/// out of reach; the row is that window, and its target the same one token on.
pub proof fn training_windows_are_drawn_from_the_whole_corpus(
    b: Batcher,
    step: u64,
    r: Batch,
    last: usize,
) -> (drawn: (Seq<usize>, Seq<u128>))
    requires
        call_ensures(Batcher::train, (&b, step), r),
        last + b.seq_len + 1 == b.shards.tokens@.len(),
    ensures
        r.rows == b.batch,
        r.seq_len == b.seq_len,
        r.input@.len() == b.batch * b.seq_len,
        r.target@.len() == b.batch * b.seq_len,
        drawn.0.len() == b.batch,
        drawn.1.len() == b.batch + 1,
        drawn.1[0] == 0,
        forall|row: int|
            0 <= row < b.batch ==> #[trigger] chacha_draw(b.seed ^ step, drawn.1[row], last) == (
                drawn.0[row],
                drawn.1[row + 1],
            ),
        forall|row: int, column: int|
            0 <= row < b.batch && 0 <= column < b.seq_len ==> {
                &&& #[trigger] r.input@[row * b.seq_len + column] == b.shards.tokens@[drawn.0[row]
                    + column]
                &&& r.target@[row * b.seq_len + column] == b.shards.tokens@[drawn.0[row] + column
                    + 1]
            },
{
    let words = draws_follow_one_another(b.seed ^ step, last, b.batch as nat);
    let starts = b.train_starts(step);
    let tokens = b.shards.tokens@;
    let n = b.seq_len as int;
    rows_len(tokens, starts, n, 0);
    rows_len(tokens, starts, n, 1);
    assert forall|row: int, column: int| 0 <= row < b.batch && 0 <= column < b.seq_len implies {
        &&& #[trigger] r.input@[row * b.seq_len + column] == tokens[starts[row] + column]
        &&& r.target@[row * b.seq_len + column] == tokens[starts[row] + column + 1]
    } by {
        rows_are_windows(tokens, starts, n, 0, row, column);
        rows_are_windows(tokens, starts, n, 1, row, column);
    }
    (starts, words)
}

/// No two steps of a run draw from one generator.
pub proof fn steps_share_no_generator(seed: u64, a: u64, b: u64)
    requires
        a != b,
    ensures
        seed ^ a != seed ^ b,
{
    assert(seed ^ a != seed ^ b) by (bit_vector)
        requires
            a != b,
    ;
}

/// The evaluation windows lie end to end from the start of the corpus, as many as
/// it holds whole with the token behind them. The batches take them in order, as
/// few batches as hold them all, and all but the last are full; each row is its
/// window, and its target the same one token on.
pub proof fn evaluation_batches_take_the_windows_in_order(
    b: Batcher,
    index: usize,
    r: Batch,
    windows: usize,
    evals: usize,
    row: int,
    column: int,
)
    requires
        b.well_formed(),
        b.seq_len > 0,
        b.batch > 0,
        call_ensures(Batcher::windows, (&b,), windows),
        call_ensures(Batcher::evals, (&b,), evals),
        call_ensures(Batcher::eval, (&b, index), r),
        index < evals,
        0 <= row < r.rows,
        0 <= column < b.seq_len,
    ensures
        windows * b.seq_len + 1 <= b.shards.tokens@.len() < (windows + 1) * b.seq_len + 1,
        (evals - 1) * b.batch < windows <= evals * b.batch,
        r.seq_len == b.seq_len,
        r.rows <= b.batch,
        index * b.batch + r.rows <= windows,
        r.rows == b.batch || index * b.batch + r.rows == windows,
        r.input@.len() == r.rows * b.seq_len,
        r.target@.len() == r.rows * b.seq_len,
        ({
            let at = (index * b.batch + row) * b.seq_len + column;
            &&& 0 <= at
            &&& at + 1 < b.shards.tokens@.len()
            &&& r.input@[row * b.seq_len + column] == b.shards.tokens@[at]
            &&& r.target@[row * b.seq_len + column] == b.shards.tokens@[at + 1]
        }),
{
    let tokens = b.shards.tokens@;
    let (len, n, k) = (tokens.len() as int, b.seq_len as int, b.batch as int);
    let w = windows as int;
    vstd::arithmetic::div_mod::lemma_fundamental_div_mod(len - 1, n);
    vstd::arithmetic::div_mod::lemma_mod_bound(len - 1, n);
    assert(n * w == w * n) by (nonlinear_arith);
    assert((w + 1) * n == w * n + n) by (nonlinear_arith);
    round_up(w, k);
    vstd::arithmetic::div_mod::lemma_fundamental_div_mod(w - 1, k);
    vstd::arithmetic::div_mod::lemma_mod_bound(w - 1, k);
    let q = (w - 1) / k;
    assert(k * q == q * k) by (nonlinear_arith);
    assert((q + 1) * k == q * k + k) by (nonlinear_arith);
    assert(evals == q + 1);
    index_in_evals(w, k, index as int);
    let starts = eval_starts(w, k, n, index as int);
    rows_are_windows(tokens, starts, n, 0, row, column);
    rows_are_windows(tokens, starts, n, 1, row, column);
    rows_len(tokens, starts, n, 1);
    let at = index * b.batch + row;
    assert(0 <= at * n && at * n + n <= w * n) by (nonlinear_arith)
        requires
            0 <= at < w,
            n > 0,
    ;
    assert(b.shards.tokens.len() <= usize::MAX);
    assert(starts[row] == at * n);
}

/// The evaluation batches together predict every token of the whole windows but
/// the first, each in one cell.
pub proof fn evaluation_predicts_the_corpus(b: Batcher, windows: usize, position: int) -> (cell: (
    int,
    int,
    int,
))
    requires
        b.well_formed(),
        b.seq_len > 0,
        b.batch > 0,
        call_ensures(Batcher::windows, (&b,), windows),
        1 <= position <= windows * b.seq_len,
    ensures
        0 <= cell.0 < usize::MAX,
        forall|evals: usize| #[trigger]
            call_ensures(Batcher::evals, (&b,), evals) ==> cell.0 < evals,
        forall|r: Batch| #[trigger]
            call_ensures(Batcher::eval, (&b, cell.0 as usize), r) ==> {
                &&& 0 <= cell.1 < r.rows
                &&& 0 <= cell.2 < b.seq_len
                &&& r.target@[cell.1 * b.seq_len + cell.2] == b.shards.tokens@[position]
            },
{
    let tokens = b.shards.tokens@;
    let (n, k, w) = (b.seq_len as int, b.batch as int, windows as int);
    let cell = every_token_is_predicted(w, k, n, position);
    index_in_evals(w, k, cell.0);
    assert(cell.0 <= cell.0 * k) by (nonlinear_arith)
        requires
            cell.0 >= 0,
            k >= 1,
    ;
    assert forall|r: Batch| #[trigger] call_ensures(
        Batcher::eval,
        (&b, cell.0 as usize),
        r,
    ) implies {
        &&& 0 <= cell.1 < r.rows
        &&& 0 <= cell.2 < b.seq_len
        &&& r.target@[cell.1 * b.seq_len + cell.2] == tokens[position]
    } by {
        let starts = eval_starts(w, k, n, cell.0);
        rows_are_windows(tokens, starts, n, 1, cell.1, cell.2);
        let at = cell.0 * k + cell.1;
        assert(0 <= at * n && at * n + n <= w * n) by (nonlinear_arith)
            requires
                0 <= at < w,
                n > 0,
        ;
        let len = tokens.len() as int;
        vstd::arithmetic::div_mod::lemma_fundamental_div_mod(len - 1, n);
        vstd::arithmetic::div_mod::lemma_mod_bound(len - 1, n);
        assert(n * w == w * n) by (nonlinear_arith);
        assert(b.shards.tokens.len() <= usize::MAX);
    }
    cell
}

} // verus!
