//! Synthetic data for probing a training recipe on a small machine.

use rand::{Rng, SeedableRng};
use rand_chacha::ChaCha8Rng;
use vstd::prelude::*;

use crate::data::shard::{Shards, Writer};
use crate::math;

verus! {

/// What ChaCha8, seeded with `seed` and standing at word `pos` of its output,
/// answers with a chance of `numerator` in `denominator`, and the word it stands
/// at afterwards.
pub uninterp spec fn chacha_toss(seed: u64, pos: u128, numerator: u32, denominator: u32) -> (
    bool,
    u128,
);

/// What it draws uniformly from `0..below`, and the word it stands at
/// afterwards.
pub uninterp spec fn chacha_below(seed: u64, pos: u128, below: u64) -> (u64, u128);

/// `rand::Rng::random_ratio` on a `rand_chacha::ChaCha8Rng` seeded by
/// `SeedableRng::seed_from_u64` and moved by `set_word_pos`; then
/// `get_word_pos`.
#[verifier::external_body]
fn toss(seed: u64, pos: u128, numerator: u32, denominator: u32) -> (r: (bool, u128))
    requires
        denominator > 0,
        numerator <= denominator,
    ensures
        r == chacha_toss(seed, pos, numerator, denominator),
{
    let mut rng = ChaCha8Rng::seed_from_u64(seed);
    rng.set_word_pos(pos);
    let answer = rng.random_ratio(numerator, denominator);
    (answer, rng.get_word_pos())
}

/// `rand::Rng::random_range` over `0..below`, on such a generator. The draw lies
/// in the range.
#[verifier::external_body]
fn draw_below(seed: u64, pos: u128, below: u64) -> (r: (u64, u128))
    requires
        below > 0,
    ensures
        r == chacha_below(seed, pos, below),
        r.0 < below,
{
    let mut rng = ChaCha8Rng::seed_from_u64(seed);
    rng.set_word_pos(pos);
    let value = rng.random_range(0..below);
    (value, rng.get_word_pos())
}

/// Tokens per document.
pub const DOCUMENT: usize = 256;

/// One token in this many is drawn at random, which leaves a learnable signal
/// and a floor the loss cannot pass.
pub const NOISE: u32 = 10;

/// Where the recurrence stands.
pub struct Walk {
    pub a: u64,
    pub b: u64,
    pub pos: u128,
}

impl Walk {
    /// The start of every corpus.
    pub open spec fn start() -> Walk {
        Walk { a: 1, b: 2, pos: 0 }
    }

    /// The next value and the word the generator then stands at.
    pub open spec fn next(self, seed: u64, vocab: u64) -> (u64, u128) {
        let tossed = chacha_toss(seed, self.pos, 1, NOISE);
        if tossed.0 {
            chacha_below(seed, tossed.1, vocab)
        } else {
            (((self.a * 7 + self.b * 3 + 1) % (vocab as int)) as u64, tossed.1)
        }
    }

    /// Where the next value leads.
    pub open spec fn after(self, seed: u64, vocab: u64) -> Walk {
        let next = self.next(seed, vocab);
        Walk { a: self.b, b: next.0, pos: next.1 }
    }

    /// The recurrence cannot overflow.
    pub open spec fn in_range(self, vocab: u64) -> bool {
        &&& self.a < vocab || self.a <= 2
        &&& self.b < vocab || self.b <= 2
    }
}

/// Where `n` values lead.
pub open spec fn walked(seed: u64, vocab: u64, n: nat) -> Walk
    decreases n,
{
    if n == 0 {
        Walk::start()
    } else {
        walked(seed, vocab, (n - 1) as nat).after(seed, vocab)
    }
}

/// The first `n` tokens: a deterministic second-order recurrence over the
/// vocabulary, with some of the values drawn at random, each cut down to sixteen
/// bits.
pub open spec fn tokens(seed: u64, vocab: u64, n: nat) -> Seq<u16>
    decreases n,
{
    if n == 0 {
        Seq::empty()
    } else {
        tokens(seed, vocab, (n - 1) as nat).push(
            (walked(seed, vocab, (n - 1) as nat).next(seed, vocab).0 % 65536) as u16,
        )
    }
}

fn step(walk: &mut Walk, seed: u64, vocab: u64) -> (token: u16)
    requires
        vocab > 0,
        10 * vocab + 21 <= u64::MAX,
        old(walk).in_range(vocab),
    ensures
        *final(walk) == old(walk).after(seed, vocab),
        final(walk).in_range(vocab),
        token == (old(walk).next(seed, vocab).0 % 65536) as u16,
{
    let (random, pos) = toss(seed, walk.pos, 1, NOISE);
    let (next, pos) = if random {
        draw_below(seed, pos, vocab)
    } else {
        ((walk.a * 7 + walk.b * 3 + 1) % vocab, pos)
    };
    walk.a = walk.b;
    walk.b = next;
    walk.pos = pos;
    (next % 65536) as u16
}

/// A corpus that a small model can actually fit: whole documents of at least
/// `count` tokens in all.
pub fn corpus(vocab: usize, count: usize, seed: u64) -> (r: Shards)
    requires
        vocab > 0,
        10 * vocab + 21 <= u64::MAX,
        count <= usize::MAX - DOCUMENT,
    ensures
        r.well_formed(),
        r.tokens@ == tokens(
            seed,
            vocab as u64,
            (math::quotient_up(count as int, DOCUMENT as int) * DOCUMENT) as nat,
        ),
        r.meta.docs == math::quotient_up(count as int, DOCUMENT as int),
        r.meta.bytes == r.meta.tokens,
        r.meta.vocab_size == vocab,
        r.meta.eos == 0,
{
    let docs = math::div_up(count, DOCUMENT);
    let mut writer = Writer::create(vocab, 0);
    let mut walk = Walk { a: 1, b: 2, pos: 0 };
    let mut doc: usize = 0;
    proof {
        math::quotient_up_covers(count as int, DOCUMENT as int);
    }
    while doc < docs
        invariant
            doc <= docs,
            docs == math::quotient_up(count as int, DOCUMENT as int),
            count > 0 ==> (docs - 1) * DOCUMENT < count,
            count == 0 ==> docs == 0,
            count <= usize::MAX - DOCUMENT,
            vocab > 0,
            10 * vocab + 21 <= u64::MAX,
            walk == walked(seed, vocab as u64, (doc * DOCUMENT) as nat),
            walk.in_range(vocab as u64),
            writer.well_formed(),
            writer.tokens@ == tokens(seed, vocab as u64, (doc * DOCUMENT) as nat),
            writer.tokens@.len() == doc * DOCUMENT,
            writer.meta.docs == doc,
            writer.meta.bytes == writer.meta.tokens,
            writer.meta.vocab_size == vocab,
            writer.meta.eos == 0,
        decreases docs - doc,
    {
        let ghost done = (doc * DOCUMENT) as nat;
        let mut document: Vec<u16> = Vec::new();
        let mut i: usize = 0;
        while i < DOCUMENT
            invariant
                i <= DOCUMENT,
                vocab > 0,
                10 * vocab + 21 <= u64::MAX,
                walk == walked(seed, vocab as u64, done + i as nat),
                walk.in_range(vocab as u64),
                document@.len() == i,
                tokens(seed, vocab as u64, done) + document@ == tokens(
                    seed,
                    vocab as u64,
                    done + i as nat,
                ),
            decreases DOCUMENT - i,
        {
            let ghost before = document@;
            let token = step(&mut walk, seed, vocab as u64);
            document.push(token);
            i = i + 1;
            assert(tokens(seed, vocab as u64, done) + document@ =~= (tokens(
                seed,
                vocab as u64,
                done,
            ) + before).push(token));
        }
        proof {
            assert(doc * DOCUMENT <= (docs - 1) * DOCUMENT) by (nonlinear_arith)
                requires
                    doc <= docs - 1,
            ;
        }
        writer.push(&document, document.len());
        doc = doc + 1;
    }
    writer.finish()
}

/// The next state of a linear congruential generator.
pub open spec fn congruential(state: u32) -> u32 {
    ((state * 1_664_525 + 1_013_904_223) % 0x1_0000_0000) as u32
}

/// The next state of a linear congruential generator, whose upper bits are noise
/// without any dependency.
pub fn noise(state: u32) -> (r: u32)
    ensures
        r == congruential(state),
{
    assert(state as int * 1_664_525 <= u32::MAX * 1_664_525) by (nonlinear_arith)
        requires
            state <= u32::MAX,
    ;
    ((state as u64 * 1_664_525 + 1_013_904_223) % 0x1_0000_0000) as u32
}

/// Value `i + 2` follows from the two before it: one in ten is drawn from the
/// vocabulary, and the others are seven times the one, three times the other and
/// one, wrapped round it. The generator stands at the words.
pub open spec fn follows(seed: u64, vocab: u64, values: Seq<u64>, words: Seq<u128>, i: int) -> bool {
    let tossed = chacha_toss(seed, words[i], 1, 10);
    if tossed.0 {
        chacha_below(seed, tossed.1, vocab) == (values[i + 2], words[i + 1])
    } else {
        &&& words[i + 1] == tossed.1
        &&& values[i + 2] < vocab
        &&& exists|k: int| #[trigger]
            math::goes_into(
                vocab as int,
                7 * values[i] + 3 * values[i + 1] + 1 - values[i + 2],
                k,
            )
    }
}

proof fn walks_keep_two_values(seed: u64, vocab: u64, n: nat) -> (r: (Seq<u64>, Seq<u128>))
    requires
        vocab > 0,
    ensures
        tokens(seed, vocab, n).len() == n,
        r.0.len() == n + 2,
        r.1.len() == n + 1,
        r.0[0] == 1,
        r.0[1] == 2,
        r.1[0] == 0,
        walked(seed, vocab, n) == (Walk { a: r.0[n as int], b: r.0[n as int + 1], pos: r.1[n as int] }),
        forall|i: int| 0 <= i < n ==> #[trigger] follows(seed, vocab, r.0, r.1, i),
        forall|i: int| 0 <= i < n ==> #[trigger] tokens(seed, vocab, n)[i] == r.0[i + 2] % 65536,
    decreases n,
{
    if n == 0 {
        (seq![1u64, 2u64], seq![0u128])
    } else {
        let m = (n - 1) as nat;
        let before = walks_keep_two_values(seed, vocab, m);
        let next = walked(seed, vocab, m).next(seed, vocab);
        let r = (before.0.push(next.0), before.1.push(next.1));
        assert forall|i: int| 0 <= i < n implies #[trigger] follows(seed, vocab, r.0, r.1, i) by {
            if i < m {
                assert(follows(seed, vocab, before.0, before.1, i));
            } else {
                let (sum, d) = (7 * r.0[i] + 3 * r.0[i + 1] + 1, vocab as int);
                vstd::arithmetic::div_mod::lemma_fundamental_div_mod(sum, d);
                vstd::arithmetic::div_mod::lemma_mod_bound(sum, d);
                assert(d * (sum / d) == (sum / d) * d) by (nonlinear_arith);
                assert(math::goes_into(d, sum - sum % d, sum / d));
            }
        }
        assert forall|i: int| 0 <= i < n implies #[trigger] tokens(seed, vocab, n)[i] == r.0[i + 2]
            % 65536 by {
            if i < m {
                assert(tokens(seed, vocab, n)[i] == tokens(seed, vocab, m)[i]);
            }
        }
        r
    }
}

/// A corpus is made of whole documents of 256 tokens, as few as hold what was asked
/// for. Its values follow from the two before them, the first from 1 and 2; the
/// tokens are the values, cut down to sixteen bits. `r` are the values from the
/// first two on, and the words at which the generator stands.
pub proof fn values_follow_from_the_two_before(
    vocab: usize,
    count: usize,
    seed: u64,
    shards: Shards,
) -> (r: (Seq<u64>, Seq<u128>))
    requires
        vocab > 0,
        call_ensures(corpus, (vocab, count, seed), shards),
    ensures
        count <= shards.tokens@.len() < count + 256,
        shards.tokens@.len() == 256 * shards.meta.docs,
        shards.meta.tokens == shards.tokens@.len(),
        shards.meta.bytes == shards.tokens@.len(),
        shards.meta.vocab_size == vocab,
        shards.meta.eos == 0,
        r.0.len() == shards.tokens@.len() + 2,
        r.1.len() == shards.tokens@.len() + 1,
        r.0[0] == 1,
        r.0[1] == 2,
        r.1[0] == 0,
        forall|i: int|
            0 <= i < shards.tokens@.len() ==> #[trigger] follows(
                seed,
                vocab as u64,
                r.0,
                r.1,
                i,
            ),
        forall|i: int|
            0 <= i < shards.tokens@.len() ==> #[trigger] shards.tokens@[i] == r.0[i + 2] % 65536,
{
    math::quotient_up_covers(count as int, 256);
    let docs = math::quotient_up(count as int, 256);
    walks_keep_two_values(seed, vocab as u64, (docs * 256) as nat)
}

/// The noise is what remains of its recurrence in 32 bits.
pub proof fn noise_wraps_round(state: u32, r: u32)
    requires
        call_ensures(noise, (state,), r),
    ensures
        exists|k: int| #[trigger]
            math::goes_into(0x1_0000_0000, 1_664_525 * state + 1_013_904_223 - r, k),
{
    let sum = 1_664_525 * state + 1_013_904_223;
    assert(math::goes_into(0x1_0000_0000, sum - r, sum / 0x1_0000_0000));
}

} // verus!
