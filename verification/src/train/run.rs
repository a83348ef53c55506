//! The decisions of the training loop.
//!
//! Everything the loop needs is a pure function of the step index, so a crashed
//! run resumes into exactly the stream it left. [`Training`] says what to draw,
//! takes in what came of it, and says what is due; performing a step, reading
//! the clock and writing files is up to whoever drives it.

use vstd::prelude::*;

use crate::config::{FfnDtype, HeadDtype, MambaDtype, Model, SsdMode};
use crate::decimal::Decimal;
use crate::math;
use crate::text;
use crate::train::checkpoint::State;
use crate::train::optim::DynamicLossScaler;

verus! {

/// Everything about a run that is not the model itself.
///
/// The defaults are the compute-efficient `tiny` recipe: about 20 training
/// tokens per parameter.
#[derive(Debug, Clone, Copy, PartialEq, Eq, Structural)]
pub struct Run {
    pub steps: usize,
    /// Sequences per forward pass. This is the memory knob: raise it until the
    /// card refuses, then compensate with `accum`.
    pub micro_batch: usize,
    /// Forward and backward passes per optimizer step. `micro_batch * accum *
    /// seq_len` is the token batch, which is what the learning rate is tuned
    /// against, so the two must move together.
    pub accum: usize,
    pub lr: Decimal,
    /// Final rate as a fraction of `lr`.
    pub lr_floor: Decimal,
    pub warmup: usize,
    pub decay: usize,
    pub weight_decay: Decimal,
    pub clip: Decimal,
    /// Orthogonalise the update of the hidden matrices instead of adapting it
    /// per coordinate.
    pub muon: bool,
    /// Recompute activations in the backward instead of keeping them.
    pub checkpointing: bool,
    /// `None` keeps the memory-efficient recalculated backward.
    pub ssd_mode: Option<SsdMode>,
    /// Reduced compute type for the output-head GEMM only.
    pub head_dtype: Option<HeadDtype>,
    /// Reduced compute type for the three FFN GEMMs in every block.
    pub ffn_dtype: Option<FfnDtype>,
    /// Reduced compute type for the Mamba input and output projections.
    pub mamba_dtype: Option<MambaDtype>,
    pub seed: u64,
    pub log_every: usize,
    pub eval_every: usize,
    pub eval_batches: usize,
    pub save_every: usize,
}

impl Run {
    /// The default recipe.
    pub open spec fn recipe() -> Self {
        Run {
            steps: 12_500,
            micro_batch: 8,
            accum: 16,
            lr: Decimal { digits: 3, exp: -3 as i32 },
            lr_floor: Decimal { digits: 1, exp: -1 as i32 },
            warmup: 400,
            decay: 2_500,
            weight_decay: Decimal { digits: 1, exp: -1 as i32 },
            clip: Decimal { digits: 1, exp: 0 },
            muon: true,
            checkpointing: true,
            ssd_mode: None,
            head_dtype: None,
            ffn_dtype: None,
            mamba_dtype: None,
            seed: 1337,
            log_every: 20,
            eval_every: 1_000,
            eval_batches: 20,
            save_every: 2_000,
        }
    }

    /// The default recipe.
    pub fn new() -> (r: Self)
        ensures
            r == Run::recipe(),
    {
        Run {
            steps: 12_500,
            micro_batch: 8,
            accum: 16,
            lr: Decimal { digits: 3, exp: -3 },
            lr_floor: Decimal { digits: 1, exp: -1 },
            warmup: 400,
            decay: 2_500,
            weight_decay: Decimal { digits: 1, exp: -1 },
            clip: Decimal { digits: 1, exp: 0 },
            muon: true,
            checkpointing: true,
            ssd_mode: None,
            head_dtype: None,
            ffn_dtype: None,
            mamba_dtype: None,
            seed: 1337,
            log_every: 20,
            eval_every: 1_000,
            eval_batches: 20,
            save_every: 2_000,
        }
    }

    /// The same run with another length.
    pub fn with_steps(self, steps: usize) -> (r: Self)
        ensures
            r == (Run { steps, ..self }),
    {
        Run { steps, ..self }
    }

    /// The same run with another micro-batch.
    pub fn with_micro_batch(self, micro_batch: usize) -> (r: Self)
        ensures
            r == (Run { micro_batch, ..self }),
    {
        Run { micro_batch, ..self }
    }

    /// The same run with another accumulation.
    pub fn with_accum(self, accum: usize) -> (r: Self)
        ensures
            r == (Run { accum, ..self }),
    {
        Run { accum, ..self }
    }

    /// The same run with another peak rate.
    pub fn with_lr(self, lr: Decimal) -> (r: Self)
        ensures
            r == (Run { lr, ..self }),
    {
        Run { lr, ..self }
    }

    /// The same run with another warmup.
    pub fn with_warmup(self, warmup: usize) -> (r: Self)
        ensures
            r == (Run { warmup, ..self }),
    {
        Run { warmup, ..self }
    }

    /// The same run with another decay.
    pub fn with_decay(self, decay: usize) -> (r: Self)
        ensures
            r == (Run { decay, ..self }),
    {
        Run { decay, ..self }
    }

    /// The same run with another choice of optimizer.
    pub fn with_muon(self, muon: bool) -> (r: Self)
        ensures
            r == (Run { muon, ..self }),
    {
        Run { muon, ..self }
    }

    /// The same run with another choice of checkpointing.
    pub fn with_checkpointing(self, checkpointing: bool) -> (r: Self)
        ensures
            r == (Run { checkpointing, ..self }),
    {
        Run { checkpointing, ..self }
    }

    /// The same run with another SSD mode.
    pub fn with_ssd_mode(self, ssd_mode: Option<SsdMode>) -> (r: Self)
        ensures
            r == (Run { ssd_mode, ..self }),
    {
        Run { ssd_mode, ..self }
    }

    /// The same run with another type of the output head.
    pub fn with_head_dtype(self, head_dtype: Option<HeadDtype>) -> (r: Self)
        ensures
            r == (Run { head_dtype, ..self }),
    {
        Run { head_dtype, ..self }
    }

    /// The same run with another type of the feed-forward layers.
    pub fn with_ffn_dtype(self, ffn_dtype: Option<FfnDtype>) -> (r: Self)
        ensures
            r == (Run { ffn_dtype, ..self }),
    {
        Run { ffn_dtype, ..self }
    }

    /// The same run with another type of the Mamba projections.
    pub fn with_mamba_dtype(self, mamba_dtype: Option<MambaDtype>) -> (r: Self)
        ensures
            r == (Run { mamba_dtype, ..self }),
    {
        Run { mamba_dtype, ..self }
    }

    /// The same run with another logging period.
    pub fn with_log_every(self, log_every: usize) -> (r: Self)
        ensures
            r == (Run { log_every, ..self }),
    {
        Run { log_every, ..self }
    }

    /// The same run with another evaluation period.
    pub fn with_eval_every(self, eval_every: usize) -> (r: Self)
        ensures
            r == (Run { eval_every, ..self }),
    {
        Run { eval_every, ..self }
    }

    /// The same run with another number of evaluation batches.
    pub fn with_eval_batches(self, eval_batches: usize) -> (r: Self)
        ensures
            r == (Run { eval_batches, ..self }),
    {
        Run { eval_batches, ..self }
    }

    /// The same run with another checkpoint period.
    pub fn with_save_every(self, save_every: usize) -> (r: Self)
        ensures
            r == (Run { save_every, ..self }),
    {
        Run { save_every, ..self }
    }

    /// Some projections run in reduced precision, so that the loss is scaled.
    pub open spec fn reduced(self) -> bool {
        self.head_dtype is Some || self.ffn_dtype is Some || self.mamba_dtype is Some
    }

    /// Whether some projections run in reduced precision.
    pub fn is_reduced(&self) -> (r: bool)
        ensures
            r == self.reduced(),
    {
        self.head_dtype.is_some() || self.ffn_dtype.is_some() || self.mamba_dtype.is_some()
    }

    /// What runs in reduced precision, in words.
    pub open spec fn seam_words(self) -> Seq<char> {
        let head = if self.head_dtype is Some {
            "output head"@
        } else {
            Seq::empty()
        };
        let ffn = if self.ffn_dtype is Some {
            also(head, "FFN projections"@)
        } else {
            head
        };
        if self.mamba_dtype is Some {
            also(ffn, "Mamba projections"@)
        } else {
            ffn
        }
    }

    /// What runs in reduced precision, in words.
    pub fn seams(&self) -> (r: String)
        ensures
            r@ == self.seam_words(),
    {
        let mut out = String::new();
        if self.head_dtype.is_some() {
            push_also(&mut out, "output head");
        }
        if self.ffn_dtype.is_some() {
            push_also(&mut out, "FFN projections");
        }
        if self.mamba_dtype.is_some() {
            push_also(&mut out, "Mamba projections");
        }
        out
    }

    /// The tokens of one optimizer step.
    pub open spec fn tokens_per_step(self, cfg: Model) -> int {
        self.micro_batch * self.accum * cfg.seq_len
    }

    /// The number under which a micro-batch of a step is drawn.
    pub open spec fn draw_number(self, step: int, micro: int) -> int {
        step * self.accum + micro
    }
}

/// `text`, behind what is already there.
pub open spec fn also(before: Seq<char>, text: Seq<char>) -> Seq<char> {
    if before.len() == 0 {
        text
    } else {
        before + " + "@ + text
    }
}

fn push_also(out: &mut String, text: &str)
    ensures
        final(out)@ == also(old(out)@, text@),
{
    if out.as_str().unicode_len() > 0 {
        out.append(" + ");
    }
    out.append(text);
    assert(out@ =~= also(old(out)@, text@));
}

/// `step` is the last of an `every`-sized period; zero is no period.
pub open spec fn is_due(step: int, every: int) -> bool {
    every > 0 && (step + 1) % every == 0
}

/// Whether `step` is the last of an `every`-sized period; `every == 0` disables.
pub fn due(step: usize, every: usize) -> (r: bool)
    requires
        every > 0 ==> step < usize::MAX,
    ensures
        r == is_due(step as int, every as int),
{
    every > 0 && (step + 1) % every == 0
}

/// How often to trace the norms of the parameters, in steps, where the
/// environment says `value`. Zero, without a value, is never. Anything
/// unparseable reads as `1`, so that a bare `yes` traces every step rather than
/// silently doing nothing.
pub fn trace_every(value: Option<&str>) -> (r: usize)
    ensures
        r == match value {
            None => 0,
            Some(text) => match text::parsed(text::trimmed(text@), usize::MAX as nat) {
                Some(n) => n as int,
                None => 1,
            },
        },
{
    match value {
        None => 0,
        Some(text) => {
            let chars = text::chars_of(text);
            let word = text::trim(&chars, 0, chars.len());
            proof {
                assert(chars@.subrange(0, chars@.len() as int) =~= text@);
                assert(word@.skip(0) =~= word@);
            }
            match text::parse_number(&word, 0, usize::MAX as u64) {
                Some(n) => n as usize,
                None => 1,
            }
        },
    }
}

/// Why a run stops before its end.
#[derive(Debug)]
pub enum Error {
    /// The shards were tokenized with a different vocabulary than the model was
    /// built for.
    Vocab { config: usize, shards: usize },
    /// The loss stopped being a number. A diverged run is not a worse run, it is
    /// not a run.
    Diverged { step: usize, params: Vec<String> },
    /// Even the minimum loss scale produced a non-finite gradient. The rejected
    /// update never reached either optimizer or the model.
    NonfiniteGradient { step: usize, loss_scale: u32 },
}

/// Which parameters came apart, in words.
pub open spec fn damage_words(params: Seq<String>) -> Seq<char> {
    if params.len() == 0 {
        "every parameter is still finite, so the loss came apart in the forward"@
    } else if params.len() == 1 {
        text::decimal(1) + " tensors are not finite, from "@ + params[0]@
    } else {
        text::decimal(params.len()) + " tensors are not finite, from "@ + params[0]@ + " through "@
            + params.last()@
    }
}

impl Error {
    /// The error in words.
    pub open spec fn words(self) -> Seq<char> {
        match self {
            Error::Vocab { config, shards } => "model vocabulary "@ + text::decimal(config as nat)
                + " does not match the shards' "@ + text::decimal(shards as nat),
            Error::Diverged { step, params } => "training diverged at step "@ + text::decimal(
                step as nat,
            ) + ": the loss is not a number.\n"@ + damage_words(params@)
                + "\nlower --lr, lengthen --warmup, or take the hidden matrices off Muon with --muon false"@,
            Error::NonfiniteGradient { step, loss_scale } =>
                "training produced non-finite gradients at step "@ + text::decimal(step as nat)
                + " with minimum loss scale "@ + text::decimal(loss_scale as nat)
                + "; the update was discarded"@,
        }
    }

    /// The error in words.
    pub fn message(&self) -> (r: String)
        ensures
            r@ == self.words(),
    {
        let mut out = String::new();
        match self {
            Error::Vocab { config, shards } => {
                out.append("model vocabulary ");
                text::push_decimal(&mut out, *config as u64);
                out.append(" does not match the shards' ");
                text::push_decimal(&mut out, *shards as u64);
                assert(out@ =~= self.words());
            },
            Error::Diverged { step, params } => {
                out.append("training diverged at step ");
                text::push_decimal(&mut out, *step as u64);
                out.append(": the loss is not a number.\n");
                push_damage(&mut out, params);
                out.append(
                    "\nlower --lr, lengthen --warmup, or take the hidden matrices off Muon with --muon false",
                );
                assert(out@ =~= self.words());
            },
            Error::NonfiniteGradient { step, loss_scale } => {
                out.append("training produced non-finite gradients at step ");
                text::push_decimal(&mut out, *step as u64);
                out.append(" with minimum loss scale ");
                text::push_decimal(&mut out, *loss_scale as u64);
                out.append("; the update was discarded");
                assert(out@ =~= self.words());
            },
        }
        out
    }
}

fn push_damage(out: &mut String, params: &Vec<String>)
    ensures
        final(out)@ == old(out)@ + damage_words(params@),
{
    if params.len() == 0 {
        out.append("every parameter is still finite, so the loss came apart in the forward");
        return;
    }
    // Module order, not the order they came apart in: by the time the loss is
    // read the damage has spread, and what is worth saying is how far.
    text::push_decimal(out, params.len() as u64);
    out.append(" tensors are not finite, from ");
    out.append(params[0].as_str());
    if params.len() > 1 {
        out.append(" through ");
        out.append(params[params.len() - 1].as_str());
    }
    assert(out@ =~= old(out)@ + damage_words(params@));
}

/// Clean steps before a loss scale grows.
pub const GROWTH_INTERVAL: usize = 200;

/// One try of an optimizer step.
#[derive(Debug, Clone, Copy, PartialEq, Eq, Structural)]
pub struct Attempt {
    /// The index of the step.
    pub step: usize,
    /// Whether the loss of the step is read. Reading it blocks until the device
    /// catches up, so it is read on logging steps only.
    pub logging: bool,
    /// What the loss is scaled by, where it is.
    pub loss_scale: Option<u32>,
}

/// What is due after a step.
#[derive(Debug, Clone, Copy, PartialEq, Eq, Structural)]
pub struct Duties {
    pub log: bool,
    pub trace: bool,
    pub eval: bool,
    pub save: bool,
}

/// A run in progress.
#[derive(Debug, Clone, Copy, PartialEq, Eq, Structural)]
pub struct Training {
    pub run: Run,
    pub per_step: u64,
    pub state: State,
}

impl Training {
    /// A loss scale is there exactly where it is needed, and what is left of the
    /// run can be counted.
    pub open spec fn well_formed(self) -> bool {
        &&& self.run.reduced() == self.state.loss_scaler is Some
        &&& self.state.loss_scaler matches Some(scaler) ==> scaler.well_formed()
        &&& self.state.step < self.run.steps ==> self.state.tokens + (self.run.steps
            - self.state.step) * self.per_step <= u64::MAX
        &&& self.run.steps * self.run.accum <= usize::MAX
    }

    /// Where a run starts: at the state that was kept, or at nothing.
    pub open spec fn start(run: Run, resumed: Option<State>) -> State {
        let state = match resumed {
            Some(state) => state,
            None => State { step: 0, tokens: 0, loss_scaler: None },
        };
        State {
            loss_scaler: if run.reduced() {
                match state.loss_scaler {
                    Some(scaler) => Some(scaler),
                    None => Some(
                        DynamicLossScaler {
                            scale: DynamicLossScaler::INITIAL,
                            finite_steps: 0,
                            growth_interval: GROWTH_INTERVAL,
                        },
                    ),
                }
            } else {
                None
            },
            ..state
        }
    }

    /// What is left of the run can be counted, and a loss scale that was kept is
    /// one.
    pub open spec fn can_begin(cfg: Model, run: Run, resumed: Option<State>) -> bool {
        let state = Training::start(run, resumed);
        &&& run.tokens_per_step(cfg) <= usize::MAX
        &&& run.steps * run.accum <= usize::MAX
        &&& state.step < run.steps ==> state.tokens + (run.steps - state.step)
            * run.tokens_per_step(cfg) <= u64::MAX
        &&& state.loss_scaler matches Some(scaler) ==> scaler.well_formed()
    }

    /// Whether the vocabulary of the training split is the model's: to be asked
    /// before anything is read or built.
    pub fn admit_shards(cfg: &Model, shards: usize) -> (r: Result<(), Error>)
        ensures
            if shards != cfg.vocab_size {
                r == Err::<(), Error>(Error::Vocab { config: cfg.vocab_size, shards })
            } else {
                r is Ok
            },
    {
        if shards != cfg.vocab_size {
            Err(Error::Vocab { config: cfg.vocab_size, shards })
        } else {
            Ok(())
        }
    }

    /// Start a run, or resume it where its newest checkpoint stands. `shards` is
    /// the vocabulary of the training split.
    pub fn begin(cfg: &Model, run: &Run, shards: usize, resumed: Option<State>) -> (r: Result<
        Self,
        Error,
    >)
        requires
            shards == cfg.vocab_size ==> Training::can_begin(*cfg, *run, resumed),
        ensures
            if shards != cfg.vocab_size {
                r == Err::<Self, Error>(Error::Vocab { config: cfg.vocab_size, shards })
            } else {
                r matches Ok(t) && t.well_formed() && t.run == *run && t.per_step
                    == run.tokens_per_step(*cfg) && t.state == Training::start(*run, resumed)
            },
    {
        if let Err(e) = Self::admit_shards(cfg, shards) {
            return Err(e);
        }
        let mut state = match resumed {
            Some(state) => state,
            None => State { step: 0, tokens: 0, loss_scaler: None },
        };
        state.loss_scaler = if run.is_reduced() {
            match state.loss_scaler {
                Some(scaler) => Some(scaler),
                None => Some(DynamicLossScaler::new(GROWTH_INTERVAL)),
            }
        } else {
            None
        };
        proof {
            let (m, a, s) = (run.micro_batch as int, run.accum as int, cfg.seq_len as int);
            assert(m * a * s >= 0) by (nonlinear_arith)
                requires
                    m >= 0,
                    a >= 0,
                    s >= 0,
            ;
        }
        let per_step = math::times3(run.micro_batch, run.accum, cfg.seq_len) as u64;
        Ok(Training { run: *run, per_step, state })
    }

    /// The next step to try; `None` at the end of the run.
    pub fn next(&self) -> (r: Option<Attempt>)
        ensures
            match r {
                Some(attempt) => {
                    &&& self.state.step < self.run.steps
                    &&& attempt.step == self.state.step
                    &&& attempt.logging == is_due(
                        self.state.step as int,
                        self.run.log_every as int,
                    )
                    &&& attempt.loss_scale == match self.state.loss_scaler {
                        Some(scaler) => Some(scaler.scale),
                        None => None,
                    }
                },
                None => self.state.step >= self.run.steps,
            },
    {
        if self.state.step >= self.run.steps {
            return None;
        }
        let loss_scale = match self.state.loss_scaler {
            Some(scaler) => Some(scaler.scale()),
            None => None,
        };
        Some(
            Attempt {
                step: self.state.step,
                logging: due(self.state.step, self.run.log_every),
                loss_scale,
            },
        )
    }

    /// The number under which micro-batch `micro` of the next step is drawn.
    pub fn draw(&self, micro: usize) -> (r: u64)
        requires
            self.well_formed(),
            self.state.step < self.run.steps,
            micro < self.run.accum,
        ensures
            r == self.run.draw_number(self.state.step as int, micro as int),
    {
        proof {
            let (s, n, a) = (self.state.step as int, self.run.steps as int, self.run.accum as int);
            assert(s * a + a <= n * a) by (nonlinear_arith)
                requires
                    s + 1 <= n,
                    a >= 0,
            ;
            assert(s * a >= 0) by (nonlinear_arith)
                requires
                    s >= 0,
                    a >= 0,
            ;
        }
        (self.state.step * self.run.accum + micro) as u64
    }

    /// Where the run stands once a step is taken.
    pub open spec fn stepped(self, scaler: Option<DynamicLossScaler>) -> State {
        State {
            step: (self.state.step + 1) as usize,
            tokens: (self.state.tokens + self.per_step) as u64,
            loss_scaler: scaler,
        }
    }

    /// Take in whether the gradients of the step that was tried were finite.
    ///
    /// Without a loss scale the step was taken whatever they were. With one, a
    /// step with a non-finite gradient was discarded, to be tried again on the
    /// same draws at a smaller scale, until there is none. `Ok(true)` says that
    /// the step was taken.
    pub fn settle(&mut self, finite: bool) -> (r: Result<bool, Error>)
        requires
            old(self).well_formed(),
            old(self).state.step < old(self).run.steps,
        ensures
            final(self).well_formed(),
            final(self).run == old(self).run,
            final(self).per_step == old(self).per_step,
            match old(self).state.loss_scaler {
                None => r == Ok::<bool, Error>(true) && final(self).state == old(self).stepped(
                    None,
                ),
                Some(scaler) => if finite {
                    r == Ok::<bool, Error>(true) && final(self).state == old(self).stepped(
                        Some(scaler.updated(true)),
                    )
                } else {
                    &&& final(self).state == (State {
                        loss_scaler: Some(scaler.updated(false)),
                        ..old(self).state
                    })
                    &&& if scaler.scale <= DynamicLossScaler::MIN {
                        r == Err::<bool, Error>(
                            Error::NonfiniteGradient {
                                step: (old(self).state.step + 1) as usize,
                                loss_scale: scaler.scale,
                            },
                        )
                    } else {
                        r == Ok::<bool, Error>(false)
                    }
                },
            },
    {
        proof {
            let (left, p) = ((self.run.steps - self.state.step) as int, self.per_step as int);
            assert(left * p == (left - 1) * p + p) by (nonlinear_arith);
            assert((left - 1) * p >= 0) by (nonlinear_arith)
                requires
                    left >= 1,
                    p >= 0,
            ;
        }
        let mut scaler = self.state.loss_scaler;
        if let Some(kept) = self.state.loss_scaler {
            let mut updated = kept;
            updated.update(finite);
            scaler = Some(updated);
            if !finite {
                self.state.loss_scaler = scaler;
                if kept.scale() <= DynamicLossScaler::MIN {
                    return Err(
                        Error::NonfiniteGradient {
                            step: self.state.step + 1,
                            loss_scale: kept.scale(),
                        },
                    );
                }
                return Ok(false);
            }
        }
        self.state = State {
            step: self.state.step + 1,
            tokens: self.state.tokens + self.per_step,
            loss_scaler: scaler,
        };
        Ok(true)
    }

    /// What is due after the step that was taken last.
    pub fn duties(&self, tracing: usize) -> (r: Duties)
        requires
            self.state.step > 0,
        ensures
            r.log == is_due(self.state.step - 1, self.run.log_every as int),
            r.trace == is_due(self.state.step - 1, tracing as int),
            r.eval == is_due(self.state.step - 1, self.run.eval_every as int),
            r.save == is_due(self.state.step - 1, self.run.save_every as int),
    {
        let step = self.state.step - 1;
        Duties {
            log: due(step, self.run.log_every),
            trace: due(step, tracing),
            eval: due(step, self.run.eval_every),
            save: due(step, self.run.save_every),
        }
    }

    /// The step of the checkpoint that closes the run: where it stands, once it
    /// is at its end or was stopped.
    pub open spec fn closing(self, stopped: bool) -> Option<usize> {
        if stopped || self.state.step >= self.run.steps {
            Some(self.state.step)
        } else {
            None
        }
    }

    /// The step of the checkpoint to leave before the run ends; `None` while it
    /// goes on.
    pub fn ending(&self, stopped: bool) -> (r: Option<usize>)
        ensures
            r == self.closing(stopped),
            r is Some <==> stopped || self.state.step >= self.run.steps,
            r matches Some(step) ==> step == self.state.step,
    {
        if stopped || self.state.step >= self.run.steps {
            Some(self.state.step)
        } else {
            None
        }
    }

    /// Take in the loss of a logging step: whether it is a number, and, where it
    /// is not, the parameters that are not finite.
    pub fn logged(&self, finite: bool, params: Vec<String>) -> (r: Result<(), Error>)
        ensures
            finite ==> r is Ok,
            !finite ==> r == Err::<(), Error>(Error::Diverged { step: self.state.step, params }),
    {
        if finite {
            Ok(())
        } else {
            Err(Error::Diverged { step: self.state.step, params })
        }
    }
}

/// The draws of a run are numbered one after the other: every number below
/// `steps * accum` belongs to one micro-batch of one step.
pub proof fn every_draw_is_made_once(run: Run, number: int) -> (at: (int, int))
    requires
        run.accum > 0,
        0 <= number < run.steps * run.accum,
    ensures
        0 <= at.0 < run.steps,
        0 <= at.1 < run.accum,
        run.draw_number(at.0, at.1) == number,
        forall|step: int, micro: int|
            0 <= micro < run.accum && #[trigger] run.draw_number(step, micro) == number ==> step
                == at.0 && micro == at.1,
{
    let a = run.accum as int;
    let (s, m) = (number / a, number % a);
    vstd::arithmetic::div_mod::lemma_fundamental_div_mod(number, a);
    vstd::arithmetic::div_mod::lemma_mod_bound(number, a);
    vstd::arithmetic::div_mod::lemma_div_pos_is_pos(number, a);
    assert(a * s == s * a) by (nonlinear_arith);
    let n = run.steps as int;
    assert(s < n) by (nonlinear_arith)
        requires
            s * a + m < n * a,
            m >= 0,
            a > 0,
    ;
    assert forall|step: int, micro: int|
        0 <= micro < run.accum && #[trigger] run.draw_number(step, micro) == number implies step == s
        && micro == m by {
        assert(step == s) by (nonlinear_arith)
            requires
                step * a + micro == s * a + m,
                0 <= micro < a,
                0 <= m < a,
        ;
    }
    (s, m)
}

/// A run that is resumed from where it stands is the run that it was: the same
/// step is next, on the same draws, at the same loss scale.
pub proof fn a_resumed_run_is_the_run_it_was(t: Training, micro: int)
    requires
        t.well_formed(),
    ensures
        Training::start(t.run, Some(t.state)) == t.state,
        t.run.draw_number(Training::start(t.run, Some(t.state)).step as int, micro)
            == t.run.draw_number(t.state.step as int, micro),
{
}

/// The run after a discarded step.
pub open spec fn retried(t: Training) -> Training {
    Training {
        state: State {
            loss_scaler: match t.state.loss_scaler {
                Some(scaler) => Some(scaler.updated(false)),
                None => None,
            },
            ..t.state
        },
        ..t
    }
}

/// A discarded step is tried again on the same draws, at half the loss scale,
/// so that it is not tried for ever.
pub proof fn retries_keep_their_draws(t: Training, micro: int)
    requires
        t.well_formed(),
        t.state.loss_scaler is Some,
        t.state.loss_scaler->0.scale > DynamicLossScaler::MIN,
    ensures
        retried(t).well_formed(),
        retried(t).state.step == t.state.step,
        retried(t).state.tokens == t.state.tokens,
        retried(t).run.draw_number(retried(t).state.step as int, micro) == t.run.draw_number(
            t.state.step as int,
            micro,
        ),
        retried(t).state.loss_scaler->0.scale == t.state.loss_scaler->0.scale / 2,
        retried(t).state.loss_scaler->0.scale < t.state.loss_scaler->0.scale,
{
    crate::train::optim::updates_stay_bounded(t.state.loss_scaler->0, false);
}

/// A run from nothing has seen `per_step` tokens for each step it has taken,
/// and taking one more keeps it so.
pub proof fn tokens_follow_steps(t: Training, scaler: Option<DynamicLossScaler>)
    requires
        t.well_formed(),
        t.state.step < t.run.steps,
        t.state.tokens == t.state.step * t.per_step,
    ensures
        t.stepped(scaler).tokens == t.stepped(scaler).step * t.per_step,
{
    let (s, p, left) = (
        t.state.step as int,
        t.per_step as int,
        (t.run.steps - t.state.step) as int,
    );
    assert((s + 1) * p == s * p + p) by (nonlinear_arith);
    assert(left * p >= p) by (nonlinear_arith)
        requires
            left >= 1,
            p >= 0,
    ;
}

/// A run in full precision after `k` more steps.
pub open spec fn advanced(t: Training, k: nat) -> Training
    decreases k,
{
    if k == 0 {
        t
    } else {
        let before = advanced(t, (k - 1) as nat);
        Training { state: before.stepped(None), ..before }
    }
}

/// The draws of the next `k` steps, in order.
pub open spec fn draws_of(t: Training, k: nat) -> Seq<int>
    decreases k,
{
    if k == 0 {
        Seq::empty()
    } else {
        let before = advanced(t, (k - 1) as nat);
        draws_of(t, (k - 1) as nat) + Seq::new(
            t.run.accum as nat,
            |micro: int| t.run.draw_number(before.state.step as int, micro),
        )
    }
}

/// The steps that are left of a run.
pub open spec fn steps_left(t: Training) -> nat {
    if t.state.step < t.run.steps {
        (t.run.steps - t.state.step) as nat
    } else {
        0
    }
}

/// A run in full precision, resumed wherever it stands, draws each micro-batch
/// that is left exactly once and in order, as one that was never interrupted,
/// and leaves its closing checkpoint at its last step, or where it stands if it
/// is past it, having seen the tokens that follow.
pub proof fn resumed_runs_finish_what_is_left(t: Training)
    requires
        t.well_formed(),
        !t.run.reduced(),
    ensures
        ({
            let end = advanced(t, steps_left(t));
            let last = if t.state.step < t.run.steps {
                t.run.steps
            } else {
                t.state.step
            };
            &&& end.state.step == last
            &&& end.state.tokens == t.state.tokens + (last - t.state.step) * t.per_step
            &&& end.closing(false) == Some(last)
            &&& draws_of(t, steps_left(t)) == Seq::new(
                ((last - t.state.step) * t.run.accum) as nat,
                |i: int| t.state.step * t.run.accum + i,
            )
        }),
        forall|k: nat| k < steps_left(t) ==> (#[trigger] advanced(t, k)).closing(false) is None,
{
    let n = steps_left(t);
    steps_follow(t, n);
    assert forall|k: nat| k < n implies (#[trigger] advanced(t, k)).closing(false) is None by {
        steps_follow(t, k);
    }
}

proof fn steps_follow(t: Training, k: nat)
    requires
        t.well_formed(),
        k <= steps_left(t),
    ensures
        advanced(t, k).state.step == t.state.step + k,
        advanced(t, k).state.tokens == t.state.tokens + k * t.per_step,
        advanced(t, k).run == t.run,
        advanced(t, k).per_step == t.per_step,
        draws_of(t, k) == Seq::new(
            (k * t.run.accum) as nat,
            |i: int| t.state.step * t.run.accum + i,
        ),
    decreases k,
{
    let (a, s, p) = (t.run.accum as int, t.state.step as int, t.per_step as int);
    if k > 0 {
        let m = (k - 1) as nat;
        steps_follow(t, m);
        assert(k * p == m * p + p) by (nonlinear_arith)
            requires
                k == m + 1,
        ;
        let left = (t.run.steps - t.state.step) as int;
        assert(k * p <= left * p) by (nonlinear_arith)
            requires
                k <= left,
                p >= 0,
        ;
        assert(k * a == m * a + a) by (nonlinear_arith)
            requires
                k == m + 1,
        ;
        assert((s + m) * a == s * a + m * a) by (nonlinear_arith);
        assert(m * a >= 0) by (nonlinear_arith)
            requires
                m >= 0,
                a >= 0,
        ;
        assert(draws_of(t, k) =~= Seq::new((k * a) as nat, |i: int| s * a + i));
    } else {
        assert(0 * p == 0 && 0 * a == 0);
        assert(draws_of(t, 0) =~= Seq::new(0, |i: int| s * a + i));
    }
}

/// Something that is due every so often is due after each multiple of its period,
/// and after no other step; with a period of zero it never is.
pub proof fn periods_end_at_their_multiples(step: usize, every: usize, r: bool)
    requires
        call_ensures(due, (step, every), r),
    ensures
        r <==> every > 0 && exists|k: int| #[trigger] math::goes_into(every as int, step + 1, k),
{
    if every > 0 {
        math::nothing_is_left_over(every as int, step + 1);
    }
}

/// What is due after a step is told by how many have been taken: each duty at the
/// multiples of its own period. A step whose loss is read is one that is logged.
pub proof fn duties_fall_due_at_their_periods(
    t: Training,
    tracing: usize,
    r: Duties,
    before: Training,
    attempt: Attempt,
)
    requires
        t.state.step > 0,
        call_ensures(Training::duties, (&t, tracing), r),
        call_ensures(Training::next, (&before,), Some(attempt)),
        before.run == t.run,
        before.state.step + 1 == t.state.step,
    ensures
        r.log <==> t.run.log_every > 0 && exists|k: int| #[trigger]
            math::goes_into(t.run.log_every as int, t.state.step as int, k),
        r.eval <==> t.run.eval_every > 0 && exists|k: int| #[trigger]
            math::goes_into(t.run.eval_every as int, t.state.step as int, k),
        r.save <==> t.run.save_every > 0 && exists|k: int| #[trigger]
            math::goes_into(t.run.save_every as int, t.state.step as int, k),
        r.trace <==> tracing > 0 && exists|k: int| #[trigger]
            math::goes_into(tracing as int, t.state.step as int, k),
        attempt.logging == r.log,
{
    let step = t.state.step as int;
    if t.run.log_every > 0 {
        math::nothing_is_left_over(t.run.log_every as int, step);
    }
    if t.run.eval_every > 0 {
        math::nothing_is_left_over(t.run.eval_every as int, step);
    }
    if t.run.save_every > 0 {
        math::nothing_is_left_over(t.run.save_every as int, step);
    }
    if tracing > 0 {
        math::nothing_is_left_over(tracing as int, step);
    }
}

/// The next step to try is the one behind those that were taken, at the scale that
/// was kept, and there is none once all were.
pub proof fn runs_try_the_step_they_stand_at(t: Training, r: Option<Attempt>)
    requires
        call_ensures(Training::next, (&t,), r),
    ensures
        r is Some <==> t.state.step < t.run.steps,
        r is Some ==> r->0.step == t.state.step,
        r is Some ==> (r->0.loss_scale is Some <==> t.state.loss_scaler is Some),
        r is Some && t.state.loss_scaler is Some ==> r->0.loss_scale->0
            == t.state.loss_scaler->0.scale,
{
}

/// A run starts where it was kept, or at nothing. It takes up the loss scale that
/// was kept, or a fresh one, where some projections run in reduced precision, and
/// none where all run in full.
pub proof fn runs_start_where_they_were_kept(
    cfg: Model,
    run: Run,
    shards: usize,
    resumed: Option<State>,
    r: Result<Training, Error>,
    fresh: DynamicLossScaler,
)
    requires
        call_ensures(Training::begin, (&cfg, &run, shards, resumed), r),
        call_ensures(DynamicLossScaler::new, (200usize,), fresh),
    ensures
        r is Ok <==> shards == cfg.vocab_size,
        r is Err ==> r == Err::<Training, Error>(Error::Vocab { config: cfg.vocab_size, shards }),
        r matches Ok(t) ==> {
            let reduced = run.head_dtype is Some || run.ffn_dtype is Some || run.mamba_dtype is Some;
            &&& t.run == run
            &&& t.per_step == run.micro_batch * run.accum * cfg.seq_len
            &&& resumed is None ==> t.state.step == 0 && t.state.tokens == 0
            &&& resumed matches Some(kept) ==> t.state.step == kept.step && t.state.tokens
                == kept.tokens
            &&& !reduced ==> t.state.loss_scaler is None
            &&& reduced && (resumed is None || resumed->0.loss_scaler is None)
                ==> t.state.loss_scaler == Some(fresh)
            &&& reduced && resumed is Some && resumed->0.loss_scaler is Some
                ==> t.state.loss_scaler == resumed->0.loss_scaler
        },
{
}

/// The micro-batches of a run are numbered one after the other, from zero on and
/// without a gap from one step to the next.
pub proof fn draws_are_numbered_through(
    t: Training,
    micro: usize,
    number: u64,
    u: Training,
    following: usize,
    next: u64,
)
    requires
        call_ensures(Training::draw, (&t, micro), number),
        call_ensures(Training::draw, (&u, following), next),
        u.run == t.run,
        micro < t.run.accum,
        following < t.run.accum,
    ensures
        t.state.step == 0 && micro == 0 ==> number == 0,
        u.state.step == t.state.step && following == micro + 1 ==> next == number + 1,
        u.state.step == t.state.step + 1 && following == 0 && micro + 1 == t.run.accum ==> next
            == number + 1,
        u.state.step == t.state.step + 1 && following == micro ==> next == number + t.run.accum,
{
    let (s, a) = (t.state.step as int, t.run.accum as int);
    assert((s + 1) * a == s * a + a) by (nonlinear_arith);
    assert(0 * a == 0);
}

/// A step is taken unless its loss was scaled and a gradient came out that is not
/// finite. One that is taken counts, with its tokens; one that is not leaves both
/// as they were, is tried again while the scale can shrink, and ends the run where
/// it cannot. Either way the scale takes note.
pub proof fn steps_are_taken_or_tried_again(finite: bool)
    ensures
        forall|t: &mut Training, r: Result<bool, Error>|
            t.well_formed() && t.state.step < t.run.steps && #[trigger] call_ensures(
                Training::settle,
                (t, finite),
                r,
            ) ==> {
                let taken = finite || t.state.loss_scaler is None;
                &&& final(t).run == t.run
                &&& final(t).per_step == t.per_step
                &&& taken ==> {
                    &&& r == Ok::<bool, Error>(true)
                    &&& final(t).state.step == t.state.step + 1
                    &&& final(t).state.tokens == t.state.tokens + t.per_step
                }
                &&& !taken ==> {
                    &&& final(t).state.step == t.state.step
                    &&& final(t).state.tokens == t.state.tokens
                    &&& t.state.loss_scaler->0.scale > 1 ==> r == Ok::<bool, Error>(false)
                    &&& t.state.loss_scaler->0.scale == 1 ==> r == Err::<bool, Error>(
                        Error::NonfiniteGradient {
                            step: (t.state.step + 1) as usize,
                            loss_scale: 1,
                        },
                    )
                }
                &&& t.state.loss_scaler is None ==> final(t).state.loss_scaler is None
                &&& t.state.loss_scaler matches Some(scaler) ==> final(t).state.loss_scaler == Some(
                    scaler.updated(finite),
                )
            },
{
    assert forall|t: &mut Training, r: Result<bool, Error>|
        t.well_formed() && t.state.step < t.run.steps && #[trigger] call_ensures(
            Training::settle,
            (t, finite),
            r,
        ) implies t.state.tokens + t.per_step <= u64::MAX by {
        let (left, p) = ((t.run.steps - t.state.step) as int, t.per_step as int);
        assert(left * p >= p) by (nonlinear_arith)
            requires
                left >= 1,
                p >= 0,
        ;
    }
}

/// The environment sets the period of the trace: without a value there is none, a
/// number counts whatever white space is around it, and anything else is one.
pub proof fn traces_follow_the_environment(text: &str, r: usize, never: usize, digits: Seq<char>)
    requires
        call_ensures(trace_every, (Some(text),), r),
        call_ensures(trace_every, (None::<&str>,), never),
        text::all_digits(digits),
    ensures
        never == 0,
        text::trimmed(text@) == digits && digits.len() > 0 && text::digits_value(digits)
            <= usize::MAX ==> r == text::digits_value(digits),
        text::trimmed(text@) == digits && (digits.len() == 0 || text::digits_value(digits)
            > usize::MAX) ==> r == 1,
        (exists|i: int|
            {
                &&& 0 <= i < text::trimmed(text@).len()
                &&& !('0' <= #[trigger] text::trimmed(text@)[i] <= '9')
                &&& i > 0 || text::trimmed(text@)[i] != '+'
            }) ==> r == 1,
{
    if digits.len() > 0 {
        assert('0' <= digits[0] <= '9');
    }
    let word = text::trimmed(text@);
    if exists|i: int|
        {
            &&& 0 <= i < word.len()
            &&& !('0' <= #[trigger] word[i] <= '9')
            &&& i > 0 || word[i] != '+'
        } {
        let i = choose|i: int|
            {
                &&& 0 <= i < word.len()
                &&& !('0' <= #[trigger] word[i] <= '9')
                &&& i > 0 || word[i] != '+'
            };
        let number = text::unsigned(word);
        if word[0] == '+' {
            assert(number[i - 1] == word[i]);
        } else {
            assert(number[i] == word[i]);
        }
        assert(!text::all_digits(number));
    }
}

/// What runs in reduced precision is named in the order of the model's output
/// head, its feed-forward layers and its blocks, with a plus sign between any two.
pub proof fn seams_are_named_in_order(run: Run, r: String, reduced: bool)
    requires
        call_ensures(Run::seams, (&run,), r),
        call_ensures(Run::is_reduced, (&run,), reduced),
    ensures
        r@ == match (run.head_dtype is Some, run.ffn_dtype is Some, run.mamba_dtype is Some) {
            (false, false, false) => Seq::empty(),
            (true, false, false) => "output head"@,
            (false, true, false) => "FFN projections"@,
            (false, false, true) => "Mamba projections"@,
            (true, true, false) => "output head"@ + " + "@ + "FFN projections"@,
            (true, false, true) => "output head"@ + " + "@ + "Mamba projections"@,
            (false, true, true) => "FFN projections"@ + " + "@ + "Mamba projections"@,
            (true, true, true) => "output head"@ + " + "@ + "FFN projections"@ + " + "@
                + "Mamba projections"@,
        },
        reduced <==> r@.len() > 0,
{
    reveal_strlit("output head");
    reveal_strlit("FFN projections");
    reveal_strlit("Mamba projections");
    assert("output head"@.len() == 11);
    assert("FFN projections"@.len() == 15);
    assert("Mamba projections"@.len() == 17);
}

/// A run leaves its last checkpoint where it stands, when it is stopped or has
/// taken its last step, and not before. A loss that is no number ends it, with the
/// parameters that came apart.
pub proof fn runs_end_where_they_stand(
    t: Training,
    stopped: bool,
    r: Option<usize>,
    finite: bool,
    params: Vec<String>,
    logged: Result<(), Error>,
)
    requires
        call_ensures(Training::ending, (&t, stopped), r),
        call_ensures(Training::logged, (&t, finite, params), logged),
    ensures
        r is None <==> !stopped && t.state.step < t.run.steps,
        r is Some ==> r->0 == t.state.step,
        logged is Ok <==> finite,
        logged matches Err(e) ==> e == (Error::Diverged { step: t.state.step, params }),
{
}

/// A run that broke off is told by its step and its numbers; of parameters that came
/// apart, by how many there are and which are the first and the last.
pub proof fn broken_runs_are_told_by_their_numbers(e: Error, r: String)
    requires
        call_ensures(Error::message, (&e,), r),
    ensures
        match e {
            Error::Vocab { config, shards } => r@ == "model vocabulary "@ + text::decimal(
                config as nat,
            ) + " does not match the shards' "@ + text::decimal(shards as nat),
            Error::NonfiniteGradient { step, loss_scale } => r@
                == "training produced non-finite gradients at step "@ + text::decimal(step as nat)
                + " with minimum loss scale "@ + text::decimal(loss_scale as nat)
                + "; the update was discarded"@,
            Error::Diverged { step, params } => exists|damage: Seq<char>|
                {
                    &&& r@ == #[trigger] ("training diverged at step "@ + text::decimal(step as nat)
                        + ": the loss is not a number.\n"@ + damage)
                        + "\nlower --lr, lengthen --warmup, or take the hidden matrices off Muon with --muon false"@
                    &&& params@.len() == 0 ==> damage
                        == "every parameter is still finite, so the loss came apart in the forward"@
                    &&& params@.len() == 1 ==> damage == text::decimal(1)
                        + " tensors are not finite, from "@ + params@[0]@
                    &&& params@.len() > 1 ==> damage == text::decimal(params@.len())
                        + " tensors are not finite, from "@ + params@[0]@ + " through "@
                        + params@[params@.len() - 1]@
                },
        },
{
    if let Error::Diverged { step, params } = e {
        let damage = damage_words(params@);
        assert(r@ == ("training diverged at step "@ + text::decimal(step as nat)
            + ": the loss is not a number.\n"@ + damage)
            + "\nlower --lr, lengthen --warmup, or take the hidden matrices off Muon with --muon false"@);
    }
}

/// The splits are refused where they were made with another vocabulary than the
/// model's.
pub proof fn splits_have_the_vocabulary_of_the_model(cfg: Model, shards: usize, r: Result<(), Error>)
    requires
        call_ensures(Training::admit_shards, (&cfg, shards), r),
    ensures
        r is Ok <==> shards == cfg.vocab_size,
        r is Err ==> r == Err::<(), Error>(Error::Vocab { config: cfg.vocab_size, shards }),
{
}

} // verus!
