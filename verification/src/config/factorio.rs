//! The Factorio family: models that write blueprints instead of prose.
//!
//! Kept apart from the language presets because almost nothing they share is a
//! coincidence worth generalising. The language presets are sized by a scaling
//! law over a large vocabulary and a long context; these are sized by a corpus
//! whose vocabulary is a few hundred fixed grammar tokens and whose longest
//! sentence is one 64-entity blueprint.

use vstd::prelude::*;

use crate::config::Model;
use crate::decimal::Decimal;
use crate::math;

verus! {

/// Tokens in the blueprint grammar.
///
/// Fixed, not learned: the vocabulary is derived from the prototype table, so
/// it changes only when the game's own entity list does.
pub const VOCAB: usize = 495;

/// The context one blueprint needs.
///
/// A 64-entity design serialises to about 460 tokens, so 512 holds a whole
/// document with its prompt.
pub const SEQ_LEN: usize = 512;

/// A member of the family.
#[derive(Debug, Clone, Copy, PartialEq, Eq, Structural)]
pub enum Size {
    /// 3.5M: the blueprint model the harness trains.
    Nano,
}

/// The shape of `factorio-nano`.
pub open spec fn nano_shape() -> Model {
    Model {
        seq_len: SEQ_LEN,
        state_rank: 32,
        head_dim: 32,
        attn_period: Some(4),
        attn_heads: 6,
        attn_window: None,
        ffn_mult: Decimal { digits: 2, exp: 0 },
        ..Model::of(VOCAB, 192, 8)
    }
}

impl Size {
    /// Every member.
    pub const ALL: [Self; 1] = [Self::Nano];

    /// The model of a member.
    pub fn model(self) -> (r: Model)
        ensures
            self is Nano ==> r == nano_shape(),
    {
        match self {
            Size::Nano => nano(),
        }
    }

    /// The name of a member.
    pub fn name(self) -> (r: &'static str)
        ensures
            self is Nano ==> r@ == "factorio-nano"@,
    {
        match self {
            Size::Nano => "factorio-nano",
        }
    }
}

/// `quasar-factorio-nano`, 3.5M: the blueprint model.
///
/// Sized for its corpus. The vocabulary is small, so the embedding costs almost
/// nothing and the whole budget goes into the stack. Attention is unwindowed:
/// the task is placing entities that must not overlap ones already placed, and
/// all of a blueprint's history bears on that.
pub fn nano() -> (r: Model)
    ensures
        r == nano_shape(),
{
    Model::new(VOCAB, 192, 8)
        .with_seq_len(SEQ_LEN)
        .with_state_rank(32)
        .with_head_dim(32)
        .with_n_groups(1)
        .with_mimo_rank(1)
        .with_attn_period(Some(4))
        .with_attn_heads(6)
        .with_attn_kv_heads(2)
        .with_attn_window(None)
        .with_ffn_mult(Decimal { digits: 2, exp: 0 })
        .with_tied_embeddings(true)
}

/// The steps that cover twenty tokens for each parameter.
pub open spec fn steps_for(model: Model, tokens_per_step: int) -> int {
    math::quotient_up(
        20 * model.weights(),
        if tokens_per_step >= 1 {
            tokens_per_step
        } else {
            1
        },
    )
}

/// Steps that cover [`Model::chinchilla_tokens`] at `tokens_per_step` a step.
///
/// The token batch is `micro_batch * accum * seq_len`; the caller passes it in
/// rather than having it guessed, because the batch is the memory decision and
/// this is only the arithmetic that follows from it.
pub fn chinchilla_steps(model: &Model, tokens_per_step: usize) -> (r: usize)
    requires
        model.countable(),
        20 * model.weights() <= usize::MAX,
    ensures
        r == steps_for(*model, tokens_per_step as int),
{
    let per_step = if tokens_per_step >= 1 {
        tokens_per_step
    } else {
        1
    };
    math::div_up(model.chinchilla_tokens(), per_step)
}

/// The steps see at least twenty tokens for each parameter, and one step fewer
/// would not.
pub proof fn steps_cover_twenty_tokens_a_parameter(model: Model, tokens_per_step: int)
    requires
        tokens_per_step >= 1,
        model.weights() >= 0,
    ensures
        steps_for(model, tokens_per_step) * tokens_per_step >= 20 * model.weights(),
        model.weights() > 0 ==> (steps_for(model, tokens_per_step) - 1) * tokens_per_step < 20
            * model.weights(),
{
    math::quotient_up_covers(20 * model.weights(), tokens_per_step);
}

} // verus!
