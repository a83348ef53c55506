//! Sampling from a trained model.
//!
//! There is no recurrent cache: each new token re-runs the whole context. What
//! is here decides what the model is shown, which tokens are candidates, and
//! when to stop; running the model and weighing the candidates is up to whoever
//! drives it.

use vstd::prelude::*;

use crate::data::tokenizer;
use crate::data::tokenizer::Tokenizer;
use crate::decimal::Decimal;
use crate::generate::factorio::{Decoder, Grammar};

pub mod factorio;

verus! {

/// How to sample.
#[derive(Debug, Clone, Copy, PartialEq, Eq, Structural)]
pub struct Sampler {
    /// Zero is greedy.
    pub temperature: Decimal,
    /// Candidates kept per step; `0` keeps the whole vocabulary.
    pub top_k: usize,
    pub max_tokens: usize,
    pub seed: u64,
}

impl Default for Sampler {
    fn default() -> (r: Self)
        ensures
            r == (Sampler {
                temperature: Decimal { digits: 8, exp: -1 as i32 },
                top_k: 40,
                max_tokens: 128,
                seed: 1337,
            }),
    {
        Sampler {
            temperature: Decimal { digits: 8, exp: -1 },
            top_k: 40,
            max_tokens: 128,
            seed: 1337,
        }
    }
}

impl Sampler {
    /// The sampler of the prompt `index` of a sweep. Each prompt samples from
    /// its own seed: sharing one would draw the same noise every time and pass
    /// it off as a varied sweep.
    pub fn seeded(&self, index: u64) -> (r: Self)
        ensures
            r == (Sampler { seed: self.seed.wrapping_add(index), ..*self }),
    {
        Sampler { seed: self.seed.wrapping_add(index), ..*self }
    }
}

/// No two prompts of a sweep share a seed.
pub proof fn sweeps_share_no_seed(sampler: Sampler, a: u64, b: u64)
    requires
        a != b,
    ensures
        sampler.seed.wrapping_add(a) != sampler.seed.wrapping_add(b),
{
}

/// The draws that continue a text: those before the end-of-text token, and no
/// more than `max`.
pub open spec fn continuation(draws: Seq<u16>, eos: u16, max: nat) -> Seq<u16>
    decreases draws.len(),
{
    if draws.len() == 0 || max == 0 || draws[0] == eos {
        Seq::empty()
    } else {
        seq![draws[0]] + continuation(draws.drop_first(), eos, (max - 1) as nat)
    }
}

/// The last `n` of `ids`, or all of them.
pub open spec fn cropped(ids: Seq<u16>, n: nat) -> Seq<u16> {
    if ids.len() > n {
        ids.skip(ids.len() - n)
    } else {
        ids
    }
}

/// A text that is being continued.
pub struct Generation {
    pub ids: Vec<u16>,
    /// How many tokens may still be added.
    pub left: usize,
    pub ended: bool,
    pub eos: u16,
    pub seq_len: usize,
}

impl Generation {
    /// Another token is wanted.
    pub open spec fn open(self) -> bool {
        self.left > 0 && !self.ended
    }

    /// What is left of the text after another token.
    pub open spec fn after(self, next: u16, then: Generation) -> bool {
        &&& then.eos == self.eos
        &&& then.seq_len == self.seq_len
        &&& if next == self.eos {
            then.ended && then.ids@ == self.ids@ && then.left == self.left
        } else {
            then.ended == self.ended && then.ids@ == self.ids@.push(next) && then.left == self.left
                - 1
        }
    }

    /// Start to continue a prompt that is encoded as `ids`.
    pub fn of(ids: Vec<u16>, eos: u16, seq_len: usize, sampler: &Sampler) -> (r: Self)
        ensures
            r == (Generation { ids, left: sampler.max_tokens, ended: false, eos, seq_len }),
    {
        Generation { ids, left: sampler.max_tokens, ended: false, eos, seq_len }
    }

    /// Start to continue `prompt`.
    pub fn start(
        tokenizer: &Tokenizer,
        prompt: &str,
        seq_len: usize,
        sampler: &Sampler,
    ) -> (r: Result<Self, tokenizer::Error>)
        ensures
            match r {
                Ok(g) => {
                    &&& g.left == sampler.max_tokens
                    &&& !g.ended
                    &&& g.eos == tokenizer.end()
                    &&& g.seq_len == seq_len
                    &&& tokenizer.may_give(prompt@, Ok(g.ids@))
                },
                Err(tokenizer::Error::Tokenizers(e)) => tokenizer.may_give(prompt@, Err(e@)),
                Err(_) => false,
            },
            tokenizer::repeats(tokenizer.codec()) ==> match tokenizer.ids(prompt@) {
                Ok(s) => r matches Ok(g) && g.ids@ == s,
                Err(m) => r matches Err(tokenizer::Error::Tokenizers(e)) && e@ == m,
            },
    {
        match tokenizer.encode_raw(prompt) {
            Ok(ids) => Ok(Generation::of(ids, tokenizer.eos(), seq_len, sampler)),
            Err(e) => Err(e),
        }
    }

    /// Whether another token is wanted.
    pub fn wants_more(&self) -> (r: bool)
        ensures
            r == self.open(),
    {
        self.left > 0 && !self.ended
    }

    /// What the model is shown: the text, cropped to `seq_len` from the right,
    /// so that a long generation slides rather than failing.
    pub fn context(&self) -> (r: Vec<u16>)
        ensures
            r@ == cropped(self.ids@, self.seq_len as nat),
    {
        let n = self.ids.len();
        let from = if n > self.seq_len {
            n - self.seq_len
        } else {
            0
        };
        let mut out: Vec<u16> = Vec::new();
        let mut i: usize = from;
        while i < n
            invariant
                from <= i <= n == self.ids@.len(),
                out@ == self.ids@.subrange(from as int, i as int),
            decreases n - i,
        {
            out.push(self.ids[i]);
            i = i + 1;
            assert(out@ =~= self.ids@.subrange(from as int, i as int));
        }
        assert(out@ =~= cropped(self.ids@, self.seq_len as nat));
        out
    }

    /// Take in the next token: the end of the text, or one more of it.
    pub fn take(&mut self, next: u16)
        requires
            old(self).open(),
        ensures
            old(self).after(next, *final(self)),
    {
        if next == self.eos {
            self.ended = true;
        } else {
            self.ids.push(next);
            self.left = self.left - 1;
        }
    }

    /// Prompt and continuation, decoded together: decoding them apart drops
    /// whatever the tokenizer would have joined them with.
    pub fn finish(&self, tokenizer: &Tokenizer) -> (r: Result<String, tokenizer::Error>)
        ensures
            match tokenizer.text(self.ids@) {
                Ok(s) => r matches Ok(text) && text@ == s,
                Err(m) => r matches Err(tokenizer::Error::Tokenizers(e)) && e@ == m,
            },
    {
        tokenizer.decode(self.ids.as_slice())
    }
}

/// `then` is what becomes of `g` when it is offered `draws`, one after the
/// other, for as long as it wants more.
pub open spec fn fed(g: Generation, draws: Seq<u16>, then: Generation) -> bool
    decreases draws.len(),
{
    if draws.len() == 0 || !g.open() {
        then == g
    } else {
        exists|mid: Generation| #[trigger]
            g.after(draws[0], mid) && fed(mid, draws.drop_first(), then)
    }
}

/// A generation is its prompt and, behind it, the draws before the end of the
/// text, no more of them than were asked for.
pub proof fn generations_continue_their_prompts(g: Generation, draws: Seq<u16>, then: Generation)
    requires
        !g.ended,
        fed(g, draws, then),
    ensures
        then.ids@ == g.ids@ + continuation(draws, g.eos, g.left as nat),
    decreases draws.len(),
{
    if draws.len() == 0 || !g.open() {
        assert(then.ids@ =~= g.ids@ + continuation(draws, g.eos, g.left as nat));
    } else {
        let mid = choose|mid: Generation| #[trigger]
            g.after(draws[0], mid) && fed(mid, draws.drop_first(), then);
        let rest = draws.drop_first();
        if draws[0] == g.eos {
            assert(rest.len() == 0 || !mid.open());
            assert(then.ids@ =~= g.ids@ + continuation(draws, g.eos, g.left as nat));
        } else {
            generations_continue_their_prompts(mid, rest, then);
            assert(then.ids@ =~= g.ids@ + continuation(draws, g.eos, g.left as nat));
        }
    }
}

/// A Factorio text that is being continued, with malformed and invalid
/// placements masked.
pub struct Constrained<'a> {
    pub text: Generation,
    pub decoder: Decoder<'a>,
}

impl<'a> Constrained<'a> {
    /// The decoder is in order.
    pub open spec fn well_formed(self) -> bool {
        self.decoder@.well_formed(*self.decoder.grammar)
    }

    /// Start to continue `prompt` within `grammar`.
    pub fn start(
        tokenizer: &Tokenizer,
        prompt: &str,
        seq_len: usize,
        sampler: &Sampler,
        grammar: &'a Grammar,
    ) -> (r: Result<Self, tokenizer::Error>)
        ensures
            match r {
                Ok(c) => {
                    &&& c.well_formed()
                    &&& *c.decoder.grammar == *grammar
                    &&& c.decoder@ == factorio::start(prompt@)
                    &&& c.text.left == sampler.max_tokens
                    &&& !c.text.ended
                    &&& c.text.eos == tokenizer.end()
                    &&& c.text.seq_len == seq_len
                    &&& tokenizer.may_give(prompt@, Ok(c.text.ids@))
                },
                Err(tokenizer::Error::Tokenizers(e)) => tokenizer.may_give(prompt@, Err(e@)),
                Err(_) => false,
            },
            tokenizer::repeats(tokenizer.codec()) ==> match tokenizer.ids(prompt@) {
                Ok(s) => r matches Ok(c) && c.text.ids@ == s,
                Err(m) => r matches Err(tokenizer::Error::Tokenizers(e)) && e@ == m,
            },
    {
        match Generation::start(tokenizer, prompt, seq_len, sampler) {
            Ok(text) => Ok(Constrained { text, decoder: grammar.decoder(prompt) }),
            Err(e) => Err(e),
        }
    }

    /// The tokens that may come next.
    pub fn allowed(&self) -> (r: Vec<u16>)
        requires
            self.well_formed(),
        ensures
            r@ == self.decoder@.allowed(*self.decoder.grammar),
    {
        self.decoder.allowed()
    }

    /// Take in the next token: the end of the text, or one that the grammar
    /// accepts.
    pub fn take(&mut self, next: u16)
        requires
            old(self).well_formed(),
            old(self).text.open(),
            next != old(self).text.eos ==> old(self).decoder@.accepts(
                *old(self).decoder.grammar,
                next,
            ),
        ensures
            final(self).well_formed(),
            old(self).text.after(next, final(self).text),
            final(self).decoder.grammar == old(self).decoder.grammar,
            final(self).decoder@ == if next == old(self).text.eos {
                old(self).decoder@
            } else {
                old(self).decoder@.after(*old(self).decoder.grammar, next)
            },
    {
        if next != self.text.eos {
            self.decoder.advance(next);
        }
        self.text.take(next);
    }
}

/// The rank of the 32-bit float with these bits in IEEE 754's total order: the
/// magnitude of a positive one, and below all of those the negative ones, the
/// larger the lower.
pub open spec fn float_rank(bits: u32) -> int {
    if bits < 0x8000_0000 {
        bits as int
    } else {
        -(bits - 0x8000_0000) - 1
    }
}

/// The rank of the 32-bit float with these bits in IEEE 754's total order.
pub fn total_order_key(bits: u32) -> (r: i32)
    ensures
        r == float_rank(bits),
{
    if bits < 0x8000_0000 {
        bits as i32
    } else {
        -((bits - 0x8000_0000) as i32) - 1
    }
}

/// Position `at` holds the last of the tokens that no other outranks.
pub open spec fn is_last_best(keys: Seq<i32>, allowed: Seq<u16>, at: int) -> bool {
    &&& 0 <= at < allowed.len()
    &&& forall|i: int|
        0 <= i < allowed.len() ==> keys[(#[trigger] allowed[i]) as int] <= keys[allowed[at] as int]
    &&& forall|i: int|
        at < i < allowed.len() ==> keys[(#[trigger] allowed[i]) as int] < keys[allowed[at] as int]
}

/// The allowed token of the highest rank; of several, the last. `keys` ranks
/// every token of the vocabulary.
pub fn greedy(keys: &Vec<i32>, allowed: &Vec<u16>) -> (r: u16)
    requires
        allowed.len() > 0,
        forall|i: int| 0 <= i < allowed@.len() ==> (#[trigger] allowed@[i]) < keys@.len(),
    ensures
        exists|at: int| #[trigger] is_last_best(keys@, allowed@, at) && r == allowed@[at],
{
    let mut best: usize = 0;
    let mut i: usize = 1;
    while i < allowed.len()
        invariant
            best < i <= allowed.len(),
            forall|i: int| 0 <= i < allowed@.len() ==> (#[trigger] allowed@[i]) < keys@.len(),
            forall|k: int|
                0 <= k < i ==> keys@[(#[trigger] allowed@[k]) as int]
                    <= keys@[allowed@[best as int] as int],
            forall|k: int|
                best < k < i ==> keys@[(#[trigger] allowed@[k]) as int]
                    < keys@[allowed@[best as int] as int],
        decreases allowed.len() - i,
    {
        assert(allowed@[i as int] < keys@.len() && allowed@[best as int] < keys@.len());
        if keys[allowed[i] as usize] >= keys[allowed[best] as usize] {
            best = i;
        }
        i = i + 1;
    }
    assert(is_last_best(keys@, allowed@, best as int));
    allowed[best]
}

/// The ranks of `order` descend.
pub open spec fn descending(keys: Seq<i32>, order: Seq<usize>) -> bool {
    forall|i: int, j: int|
        0 <= i < j < order.len() ==> keys[(#[trigger] order[i]) as int] >= keys[(
        #[trigger] order[j]) as int]
}

/// Every entry of `order` has a rank.
pub open spec fn ranked(keys: Seq<i32>, order: Seq<usize>) -> bool {
    forall|i: int| 0 <= i < order.len() ==> (#[trigger] order[i]) < keys.len()
}

proof fn push_counts(s: Seq<usize>, x: usize, rest: Seq<usize>)
    requires
        rest.len() > 0,
        rest[0] == x,
    ensures
        s.push(x).to_multiset().add(rest.drop_first().to_multiset()) == s.to_multiset().add(
            rest.to_multiset(),
        ),
{
    vstd::seq_lib::to_multiset_build(s, x);
    vstd::seq_lib::to_multiset_remove(rest, 0);
    assert(rest.remove(0) =~= rest.drop_first());
    rest.to_multiset_ensures();
    assert(rest.contains(x));
    assert(s.push(x).to_multiset().add(rest.drop_first().to_multiset()) =~= s.to_multiset().add(
        rest.to_multiset(),
    ));
}

fn merge(keys: &Vec<i32>, a: &Vec<usize>, b: &Vec<usize>) -> (out: Vec<usize>)
    requires
        descending(keys@, a@),
        descending(keys@, b@),
        ranked(keys@, a@),
        ranked(keys@, b@),
    ensures
        descending(keys@, out@),
        ranked(keys@, out@),
        out@.to_multiset() == a@.to_multiset().add(b@.to_multiset()),
        out@.len() == a@.len() + b@.len(),
{
    let mut out: Vec<usize> = Vec::new();
    let mut i: usize = 0;
    let mut j: usize = 0;
    proof {
        out@.to_multiset_ensures();
        assert(a@.skip(0) =~= a@);
        assert(b@.skip(0) =~= b@);
        assert(out@.to_multiset().add(a@.to_multiset()).add(b@.to_multiset())
            =~= a@.to_multiset().add(b@.to_multiset()));
    }
    while i < a.len() || j < b.len()
        invariant
            i <= a.len(),
            j <= b.len(),
            out@.len() == i + j,
            descending(keys@, a@),
            descending(keys@, b@),
            ranked(keys@, a@),
            ranked(keys@, b@),
            descending(keys@, out@),
            ranked(keys@, out@),
            forall|k: int, l: int|
                0 <= k < out@.len() && i <= l < a@.len() ==> keys@[(#[trigger] out@[k]) as int]
                    >= keys@[(#[trigger] a@[l]) as int],
            forall|k: int, l: int|
                0 <= k < out@.len() && j <= l < b@.len() ==> keys@[(#[trigger] out@[k]) as int]
                    >= keys@[(#[trigger] b@[l]) as int],
            out@.to_multiset().add(a@.skip(i as int).to_multiset()).add(
                b@.skip(j as int).to_multiset(),
            ) == a@.to_multiset().add(b@.to_multiset()),
        decreases a.len() - i + b.len() - j,
    {
        let from_a = if i == a.len() {
            false
        } else if j == b.len() {
            true
        } else {
            keys[a[i]] >= keys[b[j]]
        };
        let ghost before = out@;
        let ghost (ra, rb) = (a@.skip(i as int), b@.skip(j as int));
        if from_a {
            proof {
                push_counts(before, a@[i as int], ra);
                assert(ra.drop_first() =~= a@.skip(i + 1));
                assert(before.push(a@[i as int]).to_multiset().add(
                    a@.skip(i + 1).to_multiset(),
                ).add(rb.to_multiset()) =~= before.to_multiset().add(ra.to_multiset()).add(
                    rb.to_multiset(),
                ));
            }
            out.push(a[i]);
            i = i + 1;
        } else {
            proof {
                push_counts(before, b@[j as int], rb);
                assert(rb.drop_first() =~= b@.skip(j + 1));
                assert(before.push(b@[j as int]).to_multiset().add(ra.to_multiset()).add(
                    b@.skip(j + 1).to_multiset(),
                ) =~= before.push(b@[j as int]).to_multiset().add(
                    b@.skip(j + 1).to_multiset(),
                ).add(ra.to_multiset()));
                assert(before.to_multiset().add(rb.to_multiset()).add(ra.to_multiset())
                    =~= before.to_multiset().add(ra.to_multiset()).add(rb.to_multiset()));
            }
            out.push(b[j]);
            j = j + 1;
        }
    }
    proof {
        a@.skip(i as int).to_multiset_ensures();
        b@.skip(j as int).to_multiset_ensures();
        assert(a@.skip(i as int).to_multiset() =~= vstd::multiset::Multiset::empty()) by {
            assert(a@.skip(i as int).to_multiset().len() == 0);
        }
        assert(b@.skip(j as int).to_multiset() =~= vstd::multiset::Multiset::empty()) by {
            assert(b@.skip(j as int).to_multiset().len() == 0);
        }
        assert(out@.to_multiset() =~= a@.to_multiset().add(b@.to_multiset()));
    }
    out
}

fn sort_part(keys: &Vec<i32>, order: &Vec<usize>, from: usize, upto: usize) -> (out: Vec<usize>)
    requires
        from <= upto <= order.len(),
        ranked(keys@, order@),
    ensures
        descending(keys@, out@),
        ranked(keys@, out@),
        out@.to_multiset() == order@.subrange(from as int, upto as int).to_multiset(),
        out@.len() == upto - from,
    decreases upto - from,
{
    let ghost part = order@.subrange(from as int, upto as int);
    if upto - from <= 1 {
        let mut out: Vec<usize> = Vec::new();
        if from < upto {
            out.push(order[from]);
        }
        assert(out@ =~= part);
        assert forall|i: int| 0 <= i < out@.len() implies (#[trigger] out@[i]) < keys@.len() by {
            assert(order@[from as int] < keys@.len());
        }
        return out;
    }
    let mid = from + (upto - from) / 2;
    let a = sort_part(keys, order, from, mid);
    let b = sort_part(keys, order, mid, upto);
    proof {
        let left = order@.subrange(from as int, mid as int);
        let right = order@.subrange(mid as int, upto as int);
        assert(part =~= left + right);
        vstd::seq_lib::lemma_multiset_commutative(left, right);
    }
    merge(keys, &a, &b)
}

/// The tokens to choose from, in the order in which they are listed.
pub open spec fn listed(vocab: nat, allowed: Option<Seq<u16>>) -> Seq<usize> {
    match allowed {
        Some(ids) => ids.map_values(|id: u16| id as usize),
        None => Seq::new(vocab, |i: int| i as usize),
    }
}

/// How many candidates are kept.
pub open spec fn kept(top_k: nat, len: nat) -> nat {
    if top_k == 0 || top_k > len {
        len
    } else {
        top_k
    }
}

/// `out` are the best of `order`: where they leave off, nothing better is left.
/// Which of several of one rank come first is left open.
pub open spec fn are_best(keys: Seq<i32>, order: Seq<usize>, top_k: nat, out: Seq<usize>) -> bool {
    exists|sorted: Seq<usize>| #[trigger]
        descending(keys, sorted) && sorted.to_multiset() == order.to_multiset() && out
            == sorted.take(kept(top_k, order.len()) as int)
}

/// The candidates of a step, best first: the `top_k` tokens of the highest rank
/// among those allowed, or all of them. `keys` ranks every token of the
/// vocabulary.
pub fn candidates(keys: &Vec<i32>, top_k: usize, allowed: Option<&Vec<u16>>) -> (out: Vec<usize>)
    requires
        allowed matches Some(ids) ==> forall|i: int|
            0 <= i < ids@.len() ==> (#[trigger] ids@[i]) < keys@.len(),
    ensures
        are_best(
            keys@,
            listed(
                keys@.len(),
                match allowed {
                    Some(ids) => Some(ids@),
                    None => None,
                },
            ),
            top_k as nat,
            out@,
        ),
        ranked(keys@, out@),
{
    let mut order: Vec<usize> = Vec::new();
    match allowed {
        Some(ids) => {
            let mut i: usize = 0;
            while i < ids.len()
                invariant
                    i <= ids.len(),
                    forall|i: int| 0 <= i < ids@.len() ==> (#[trigger] ids@[i]) < keys@.len(),
                    order@.len() == i,
                    forall|k: int| 0 <= k < i ==> (#[trigger] order@[k]) == ids@[k],
                decreases ids.len() - i,
            {
                order.push(ids[i] as usize);
                i = i + 1;
            }
            assert(order@ =~= listed(keys@.len(), Some(ids@)));
            assert(ranked(keys@, order@)) by {
                assert forall|k: int| 0 <= k < order@.len() implies (#[trigger] order@[k])
                    < keys@.len() by {
                    assert(ids@[k] < keys@.len());
                }
            }
        },
        None => {
            let mut i: usize = 0;
            while i < keys.len()
                invariant
                    i <= keys.len(),
                    order@.len() == i,
                    forall|k: int| 0 <= k < i ==> (#[trigger] order@[k]) == k,
                decreases keys.len() - i,
            {
                order.push(i);
                i = i + 1;
            }
            assert(order@ =~= listed(keys@.len(), None));
        },
    }
    let mut sorted = sort_part(keys, &order, 0, order.len());
    assert(order@.subrange(0, order@.len() as int) =~= order@);
    let ghost all = sorted@;
    let keep = if top_k == 0 || top_k > order.len() {
        order.len()
    } else {
        top_k
    };
    sorted.truncate(keep);
    assert(sorted@ =~= all.take(keep as int));
    assert(descending(keys@, all));
    sorted
}

/// The token that was drawn: the candidate whose share was hit, or, where
/// rounding left none hit, the last.
pub fn drawn_token(order: &Vec<usize>, hit: Option<usize>) -> (r: u16)
    requires
        order.len() > 0,
        hit matches Some(i) ==> i < order.len(),
    ensures
        r == order@[match hit {
            Some(i) => i as int,
            None => order@.len() - 1,
        }] % 65536,
{
    let index = match hit {
        Some(i) => order[i],
        None => order[order.len() - 1],
    };
    (index % 65536) as u16
}

/// What the model is shown is a suffix of the text, as long as the model can
/// read: counted from the end, its tokens are those of the text.
pub proof fn the_model_is_shown_the_end_of_the_text(g: Generation, shown: Vec<u16>)
    requires
        call_ensures(Generation::context, (&g,), shown),
    ensures
        shown@.len() <= g.seq_len,
        shown@.len() <= g.ids@.len(),
        shown@.len() == g.seq_len || shown@.len() == g.ids@.len(),
        forall|k: int|
            0 <= k < shown@.len() ==> #[trigger] shown@[shown@.len() - 1 - k]
                == g.ids@[g.ids@.len() - 1 - k],
{
}

/// A generation grows by the longest run of draws that holds no end of the text
/// and is no longer than what was left to add; it ends where the end of the text
/// was drawn.
pub proof fn generations_stop_where_they_must(g: Generation, draws: Seq<u16>, then: Generation)
    requires
        !g.ended,
        fed(g, draws, then),
    ensures
        ({
            let n = then.ids@.len() - g.ids@.len();
            &&& 0 <= n <= g.left
            &&& n <= draws.len()
            &&& then.ids@ == g.ids@ + draws.take(n)
            &&& forall|i: int| 0 <= i < n ==> #[trigger] draws[i] != g.eos
            &&& n < g.left && n < draws.len() ==> draws[n] == g.eos
            &&& then.ended <==> n < g.left && n < draws.len()
            &&& then.left + n == g.left
            &&& then.eos == g.eos
            &&& then.seq_len == g.seq_len
        }),
    decreases draws.len(),
{
    if draws.len() == 0 || !g.open() {
        assert(then.ids@ =~= g.ids@ + draws.take(0));
    } else {
        let mid = choose|mid: Generation| #[trigger]
            g.after(draws[0], mid) && fed(mid, draws.drop_first(), then);
        let rest = draws.drop_first();
        if draws[0] == g.eos {
            assert(rest.len() == 0 || !mid.open());
            assert(then.ids@ =~= g.ids@ + draws.take(0));
        } else {
            generations_stop_where_they_must(mid, rest, then);
            let n = then.ids@.len() - g.ids@.len();
            assert(then.ids@ =~= g.ids@ + draws.take(n));
            assert forall|i: int| 0 <= i < n implies #[trigger] draws[i] != g.eos by {
                if i > 0 {
                    assert(rest[i - 1] == draws[i]);
                }
            }
            if n < draws.len() {
                assert(rest[n - 1] == draws[n]);
            }
        }
    }
}

/// The candidates are drawn from what may come next, each as often as it is
/// listed there at most. They come best first, as many as were asked for or as
/// there are, and nothing that was left out outranks any of them.
pub proof fn candidates_are_the_best(
    keys: Vec<i32>,
    top_k: usize,
    allowed: Option<&Vec<u16>>,
    out: Vec<usize>,
)
    requires
        call_ensures(candidates, (&keys, top_k, allowed), out),
    ensures
        ({
            let all = match allowed {
                Some(ids) => Seq::new(ids@.len(), |i: int| ids@[i] as usize),
                None => Seq::new(keys@.len(), |i: int| i as usize),
            };
            &&& out@.len() <= all.len()
            &&& out@.len() == all.len() || (top_k > 0 && out@.len() == top_k)
            &&& top_k > 0 ==> out@.len() <= top_k
            &&& forall|i: int, j: int|
                0 <= i < j < out@.len() ==> keys@[(#[trigger] out@[i]) as int] >= keys@[(
                #[trigger] out@[j]) as int]
            &&& forall|token: usize| #[trigger]
                out@.to_multiset().count(token) <= all.to_multiset().count(token)
            &&& forall|token: usize, i: int|
                0 <= i < out@.len() && #[trigger] out@.to_multiset().count(token)
                    < all.to_multiset().count(token) ==> keys@[token as int] <= keys@[(
                #[trigger] out@[i]) as int]
        }),
{
    let order = listed(
        keys@.len(),
        match allowed {
            Some(ids) => Some(ids@),
            None => None,
        },
    );
    let all = match allowed {
        Some(ids) => Seq::new(ids@.len(), |i: int| ids@[i] as usize),
        None => Seq::new(keys@.len(), |i: int| i as usize),
    };
    assert(order =~= all);
    let sorted = choose|sorted: Seq<usize>| #[trigger]
        descending(keys@, sorted) && sorted.to_multiset() == order.to_multiset() && out@
            == sorted.take(kept(top_k as nat, order.len()) as int);
    let k = kept(top_k as nat, order.len()) as int;
    sorted.to_multiset_ensures();
    order.to_multiset_ensures();
    assert(sorted.len() == order.len());
    let left = sorted.skip(k);
    assert(sorted =~= out@ + left);
    vstd::seq_lib::lemma_multiset_commutative(out@, left);
    assert(sorted.to_multiset() =~= out@.to_multiset().add(left.to_multiset()));
    assert forall|i: int, j: int| 0 <= i < j < out@.len() implies keys@[(#[trigger] out@[i]) as int]
        >= keys@[(#[trigger] out@[j]) as int] by {
        assert(sorted[i] == out@[i] && sorted[j] == out@[j]);
    }
    assert forall|token: usize, i: int|
        0 <= i < out@.len() && #[trigger] out@.to_multiset().count(token)
            < all.to_multiset().count(token) implies keys@[token as int] <= keys@[(
    #[trigger] out@[i]) as int] by {
        left.to_multiset_ensures();
        assert(left.to_multiset().count(token) > 0);
        assert(left.contains(token));
        let j = choose|j: int| 0 <= j < left.len() && left[j] == token;
        assert(sorted[k + j] == token && sorted[i] == out@[i]);
    }
}

/// The greedy choice may come next, nothing that may come next outranks it, and
/// it is the last of those that rank as high.
pub proof fn the_greedy_choice_is_the_last_of_the_best(
    keys: Vec<i32>,
    allowed: Vec<u16>,
    choice: u16,
)
    requires
        call_ensures(greedy, (&keys, &allowed), choice),
    ensures
        exists|at: int|
            {
                &&& 0 <= at < allowed@.len()
                &&& #[trigger] allowed@[at] == choice
                &&& forall|i: int|
                    at < i < allowed@.len() ==> keys@[(#[trigger] allowed@[i]) as int]
                        < keys@[choice as int]
            },
        forall|i: int|
            0 <= i < allowed@.len() ==> keys@[(#[trigger] allowed@[i]) as int]
                <= keys@[choice as int],
{
    let at = choose|at: int| #[trigger]
        is_last_best(keys@, allowed@, at) && choice == allowed@[at];
    assert(allowed@[at] == choice);
}

/// The candidate that was hit is the token that was drawn, and the last one
/// where none was hit.
pub proof fn the_hit_candidate_is_drawn(order: Vec<usize>, hit: Option<usize>, token: u16)
    requires
        call_ensures(drawn_token, (&order, hit), token),
    ensures
        hit matches Some(i) ==> i < order@.len() && order@[i as int] < 65536 ==> token
            == order@[i as int],
        hit is None && order@.len() > 0 && order@.last() < 65536 ==> token == order@.last(),
{
}

/// Floats of one sign rank as their magnitudes do, those with a minus the other
/// way round, and below all of the others.
pub proof fn floats_rank_by_sign_and_magnitude(a: u32, b: u32, ra: i32, rb: i32)
    requires
        call_ensures(total_order_key, (a,), ra),
        call_ensures(total_order_key, (b,), rb),
    ensures
        a < 0x8000_0000 && b < 0x8000_0000 ==> (a < b <==> ra < rb),
        a >= 0x8000_0000 && b >= 0x8000_0000 ==> (a < b <==> ra > rb),
        a >= 0x8000_0000 && b < 0x8000_0000 ==> ra < rb,
{
}

/// The prompts of a sweep are sampled alike but for the seed, which counts them
/// up from that of the sweep, round the end of its range.
pub proof fn sweeps_count_their_seeds(sampler: Sampler, index: u64, r: Sampler)
    requires
        call_ensures(Sampler::seeded, (&sampler, index), r),
    ensures
        r.temperature == sampler.temperature,
        r.top_k == sampler.top_k,
        r.max_tokens == sampler.max_tokens,
        r.seed == sampler.seed + index || r.seed == sampler.seed + index - u64::MAX - 1,
{
}

/// A continuation starts from its prompt, with everything that the sampler
/// permits still to come.
pub proof fn generations_start_from_their_prompts(
    tokenizer: Tokenizer,
    prompt: &str,
    seq_len: usize,
    sampler: Sampler,
    g: Generation,
    text: String,
)
    requires
        call_ensures(Generation::start, (&tokenizer, prompt, seq_len, &sampler), Ok(g)),
        tokenizer::repeats(tokenizer.codec()),
    ensures
        tokenizer.ids(prompt@) == Ok::<Seq<u16>, Seq<char>>(g.ids@),
        g.left == sampler.max_tokens,
        !g.ended,
        g.seq_len == seq_len,
        g.eos == tokenizer.end(),
        call_ensures(Generation::finish, (&g, &tokenizer), Ok(text)) ==> tokenizer.text(g.ids@)
            == Ok::<Seq<char>, Seq<char>>(text@),
{
}

/// Another token ends the text where it is the end of one, and otherwise goes
/// behind all that was there and is one less to come.
pub proof fn tokens_are_taken_in_one_by_one(next: u16)
    ensures
        forall|g: &mut Generation| #[trigger]
            call_ensures(Generation::take, (g, next), ()) ==> {
                let n = g.ids@.len() as int;
                &&& final(g).eos == g.eos
                &&& final(g).seq_len == g.seq_len
                &&& next == g.eos ==> final(g).ended && final(g).ids@ == g.ids@ && final(g).left
                    == g.left
                &&& next != g.eos ==> {
                    &&& final(g).ended == g.ended
                    &&& final(g).left == g.left - 1
                    &&& final(g).ids@.len() == n + 1
                    &&& final(g).ids@[n] == next
                    &&& forall|i: int| 0 <= i < n ==> #[trigger] final(g).ids@[i] == g.ids@[i]
                }
            },
{
}

/// A text within a grammar goes on as any other, and its decoder with it, but for
/// the end of the text, which is no part of a blueprint.
pub proof fn decoders_follow_their_texts(next: u16)
    ensures
        forall|c: &mut Constrained<'_>| #[trigger]
            call_ensures(Constrained::take, (c, next), ()) ==> {
                &&& c.text.after(next, final(c).text)
                &&& final(c).decoder.grammar == c.decoder.grammar
                &&& next == c.text.eos ==> final(c).decoder@ == c.decoder@
                &&& next != c.text.eos ==> final(c).decoder@ == c.decoder@.after(
                    *c.decoder.grammar,
                    next,
                )
            },
{
}

/// Another token is wanted until the text has ended, or has as many as were asked
/// for.
pub proof fn texts_go_on_until_they_end(
    g: Generation,
    more: bool,
    ids: Vec<u16>,
    eos: u16,
    seq_len: usize,
    sampler: Sampler,
    fresh: Generation,
)
    requires
        call_ensures(Generation::wants_more, (&g,), more),
        call_ensures(Generation::of, (ids, eos, seq_len, &sampler), fresh),
    ensures
        !more <==> g.ended || g.left == 0,
        fresh.ids == ids,
        fresh.eos == eos,
        fresh.seq_len == seq_len,
        fresh.left == sampler.max_tokens,
        !fresh.ended,
{
}

/// A continuation within a grammar starts as any other does, with the decoder of
/// its prompt, and may go on with what the decoder allows.
pub proof fn constrained_texts_start_with_their_prompts(
    tokenizer: Tokenizer,
    prompt: &str,
    seq_len: usize,
    sampler: Sampler,
    grammar: Grammar,
    c: Constrained<'_>,
    g: Generation,
    d: Decoder<'_>,
    allowed: Vec<u16>,
    own: Vec<u16>,
)
    requires
        tokenizer::repeats(tokenizer.codec()),
        call_ensures(Constrained::start, (&tokenizer, prompt, seq_len, &sampler, &grammar), Ok(c)),
        call_ensures(Generation::start, (&tokenizer, prompt, seq_len, &sampler), Ok(g)),
        call_ensures(Grammar::decoder, (&grammar, prompt), d),
        call_ensures(Constrained::allowed, (&c,), allowed),
        call_ensures(Decoder::allowed, (&c.decoder,), own),
    ensures
        c.text.ids@ == g.ids@,
        c.text.left == g.left,
        c.text.ended == g.ended,
        c.text.eos == g.eos,
        c.text.seq_len == g.seq_len,
        c.decoder@ == d@,
        *c.decoder.grammar == grammar,
        allowed@ == own@,
{
}

/// Unless it is told otherwise a sampler is warm but below one, keeps forty
/// candidates, and continues by as many tokens as seven bits count.
pub proof fn samplers_start_warm(r: Sampler)
    requires
        call_ensures(Sampler::default, (), r),
    ensures
        r.temperature == (Decimal { digits: 8, exp: -1 as i32 }),
        r.top_k == 40,
        r.max_tokens == 128,
        r.seed == 1337,
{
}

} // verus!
