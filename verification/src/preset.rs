//! The shipped presets, and what the command line changes about them.

use vstd::prelude::*;

use crate::config::factorio;
use crate::config::{FfnDtype, HeadDtype, MambaDtype, Model, SsdMode};
use crate::decimal::Decimal;
use crate::train::run::Run;

verus! {

/// A model with the run it is trained by.
#[derive(Debug, Clone, Copy, PartialEq, Eq, Structural)]
pub enum Preset {
    Tiny,
    /// `tiny`, cut down to what trains fastest inside 16 GB.
    TinyTurbo,
    Base,
    /// The Factorio blueprint family.
    FactorioNano,
    Toy,
}

/// The micro-batch of `factorio-nano`.
pub const NANO_MICRO: usize = 32;

/// The steps of `factorio-nano`: twenty tokens for each parameter.
pub open spec fn nano_steps() -> int {
    factorio::steps_for(factorio::nano_shape(), NANO_MICRO * factorio::SEQ_LEN)
}

proof fn nano_counts()
    ensures
        factorio::nano_shape().countable(),
        factorio::nano_shape().weights() == 3_521_360,
        nano_steps() == 4299,
{
    let m = factorio::nano_shape();
    crate::config::attention_shares_the_stack(m, 8);
    assert(m.ssm_layers() == 6);
    assert(m.attn_layers() == 2);
    assert(m.inner() == 384);
    assert(m.heads() == 12);
    assert(m.mamba_of().in_width() == 876);
    assert(m.d_model * m.mamba_of().in_width() == 168_192) by (nonlinear_arith)
        requires
            m.d_model == 192,
            m.mamba_of().in_width() == 876,
    ;
    assert(m.inner() * m.d_model == 73_728) by (nonlinear_arith)
        requires
            m.d_model == 192,
            m.inner() == 384,
    ;
    assert(2 * m.heads() * 1 * 32 == 768);
    assert(m.ssm_weights() == 242_808);
    assert(m.attn_head() == 32);
    assert(m.attn_weights() == 98_368);
    assert(crate::decimal::pow10(0) == 1);
    assert(192 * 2 * 1 == 384nat);
    assert(m.ffn_raw() == 384);
    assert(m.ffn() == 384);
    assert(m.ffn_weights() == 1_769_472);
    assert(m.norm_weights() == 3_264);
    assert(m.weights() == 3_521_360);
    assert(NANO_MICRO * factorio::SEQ_LEN == 16_384);
    assert((70_427_200int + 16_384 - 1) / 16_384 == 4299);
}

impl Preset {
    /// Every preset.
    pub const ALL: [Self; 5] = [
        Self::Tiny,
        Self::TinyTurbo,
        Self::Base,
        Self::FactorioNano,
        Self::Toy,
    ];

    /// What a preset is called on the command line.
    pub fn name(self) -> (r: &'static str)
        ensures
            r@ == match self {
                Preset::Tiny => "tiny"@,
                Preset::TinyTurbo => "tiny-turbo"@,
                Preset::Base => "base"@,
                Preset::FactorioNano => "factorio-nano"@,
                Preset::Toy => "toy"@,
            },
    {
        match self {
            Preset::Tiny => "tiny",
            Preset::TinyTurbo => "tiny-turbo",
            Preset::Base => "base",
            Preset::FactorioNano => "factorio-nano",
            Preset::Toy => "toy",
        }
    }

    /// The model of a preset.
    pub open spec fn model(self) -> Model {
        match self {
            Preset::Tiny => Model {
                n_groups: 2,
                mimo_rank: 2,
                attn_period: Some(6),
                attn_heads: 10,
                ..Model::of(32_768, 640, 24)
            },
            Preset::TinyTurbo => Model {
                seq_len: 1024,
                state_rank: 64,
                attn_period: Some(5),
                attn_heads: 10,
                attn_window: Some(256),
                ffn_mult: Decimal { digits: 2, exp: 0 },
                ..Model::of(32_768, 640, 12)
            },
            Preset::Base => Model {
                n_groups: 4,
                mimo_rank: 4,
                attn_period: Some(7),
                attn_heads: 24,
                attn_kv_heads: 4,
                tied_embeddings: false,
                ..Model::of(32_768, 1536, 28)
            },
            Preset::FactorioNano => factorio::nano_shape(),
            Preset::Toy => Model {
                seq_len: 16,
                state_rank: 8,
                head_dim: 8,
                mimo_rank: 2,
                attn_period: Some(2),
                attn_heads: 4,
                attn_window: Some(8),
                ffn_mult: Decimal { digits: 2, exp: 0 },
                ..Model::of(64, 32, 4)
            },
        }
    }

    /// The model of a preset.
    pub fn config(self) -> (r: Model)
        ensures
            r == self.model(),
    {
        match self {
            Preset::Tiny => Model::tiny(),
            Preset::TinyTurbo => Model::tiny_turbo(),
            Preset::Base => Model::base(),
            Preset::FactorioNano => factorio::nano(),
            Preset::Toy => Model::toy(),
        }
    }

    /// The run of a preset.
    pub open spec fn recipe(self) -> Run {
        match self {
            Preset::TinyTurbo => Run {
                micro_batch: 4,
                accum: 32,
                checkpointing: false,
                ssd_mode: Some(SsdMode::Serial),
                head_dtype: Some(HeadDtype::F16),
                ffn_dtype: Some(FfnDtype::F16),
                mamba_dtype: Some(MambaDtype::F16),
                ..Run::recipe()
            },
            Preset::FactorioNano => Run {
                steps: nano_steps() as usize,
                micro_batch: NANO_MICRO,
                accum: 1,
                lr: Decimal { digits: 15, exp: -4 as i32 },
                warmup: (nano_steps() / 20) as usize,
                decay: (nano_steps() / 5) as usize,
                eval_every: (nano_steps() / 20) as usize,
                save_every: (nano_steps() / 4) as usize,
                log_every: (nano_steps() / 60) as usize,
                checkpointing: false,
                ssd_mode: Some(SsdMode::Serial),
                ..Run::recipe()
            },
            _ => Run::recipe(),
        }
    }

    /// Run defaults that have been validated for one exact production shape.
    ///
    /// The retained graph fits `tiny-turbo` at micro-batch 4 without outer
    /// checkpointing on a 16-GB card. Accumulation rises inversely so the
    /// default token budget is unchanged, and its projections run in fp16.
    ///
    /// `factorio-nano` is the other end: the memory-saving defaults buy nothing
    /// there, so both come off and the batch goes into one pass. Its length is
    /// twenty tokens per parameter, and its peak rate half the shared one, which
    /// it diverged at.
    pub fn run_defaults(self) -> (r: Run)
        ensures
            r == self.recipe(),
    {
        match self {
            Preset::TinyTurbo => Run::new()
                .with_micro_batch(4)
                .with_accum(32)
                .with_checkpointing(false)
                .with_ssd_mode(Some(SsdMode::Serial))
                .with_head_dtype(Some(HeadDtype::F16))
                .with_ffn_dtype(Some(FfnDtype::F16))
                .with_mamba_dtype(Some(MambaDtype::F16)),
            Preset::FactorioNano => {
                let cfg = factorio::nano();
                proof {
                    nano_counts();
                }
                let steps = factorio::chinchilla_steps(&cfg, NANO_MICRO * cfg.seq_len);
                Run::new()
                    .with_steps(steps)
                    .with_micro_batch(NANO_MICRO)
                    .with_accum(1)
                    .with_lr(Decimal { digits: 15, exp: -4 })
                    // 5% warmup, 20% decay.
                    .with_warmup(steps / 20)
                    .with_decay(steps / 5)
                    .with_eval_every(steps / 20)
                    .with_save_every(steps / 4)
                    .with_log_every(steps / 60)
                    .with_checkpointing(false)
                    .with_ssd_mode(Some(SsdMode::Serial))
            },
            Preset::Tiny => Run::new(),
            Preset::Base => Run::new(),
            Preset::Toy => Run::new(),
        }
    }
}

/// The schedule of every preset fits inside the run it is scheduling, and each
/// step of `factorio-nano` counts: the run sees twenty tokens per parameter.
pub proof fn schedules_fit_their_runs(preset: Preset)
    ensures
        preset.recipe().warmup + preset.recipe().decay < preset.recipe().steps,
        preset is FactorioNano ==> preset.recipe().steps * preset.recipe().tokens_per_step(
            preset.model(),
        ) >= 20 * preset.model().weights(),
{
    nano_counts();
    if preset is FactorioNano {
        let run = preset.recipe();
        assert(run.tokens_per_step(preset.model()) == 16_384) by {
            assert(run.micro_batch * run.accum == 32);
        }
        assert(4299 * 16_384 >= 70_427_200);
    }
}

/// Every preset can be built.
pub proof fn presets_can_be_built(preset: Preset)
    ensures
        preset.model().mistake() is None,
{
    let m = preset.model();
    match preset {
        Preset::Tiny => {
            assert(m.inner() == 1280 && m.heads() == 20);
        },
        Preset::TinyTurbo => {
            assert(m.inner() == 1280 && m.heads() == 20);
        },
        Preset::Base => {
            assert(m.inner() == 3072 && m.heads() == 48);
        },
        Preset::FactorioNano => {
            assert(m.inner() == 384 && m.heads() == 12);
        },
        Preset::Toy => {
            assert(m.inner() == 64 && m.heads() == 8);
        },
    }
}

/// What a value is once an override is applied.
pub open spec fn picked<T>(value: Option<T>, default: T) -> T {
    match value {
        Some(value) => value,
        None => default,
    }
}

/// A flag in which zero says "none".
pub open spec fn unless_zero(value: Option<usize>, default: Option<usize>) -> Option<usize> {
    match value {
        Some(n) => if n > 0 {
            Some(n)
        } else {
            None
        },
        None => default,
    }
}

fn pick_size(value: Option<usize>, default: usize) -> (r: usize)
    ensures
        r == picked(value, default),
{
    match value {
        Some(value) => value,
        None => default,
    }
}

fn pick_unless_zero(value: Option<usize>, default: Option<usize>) -> (r: Option<usize>)
    ensures
        r == unless_zero(value, default),
{
    match value {
        Some(n) => if n > 0 {
            Some(n)
        } else {
            None
        },
        None => default,
    }
}

/// The model-shape knobs worth sweeping without editing a preset, because they
/// are the ones that decide whether a micro-batch fits.
#[derive(Debug, Clone, Copy, PartialEq, Eq, Structural)]
pub struct Shape {
    pub seq_len: Option<usize>,
    pub state_rank: Option<usize>,
    pub mimo_rank: Option<usize>,
    pub expand: Option<usize>,
    /// Sliding-window radius; `0` means full causal attention.
    pub attn_window: Option<usize>,
    /// Attention every n-th layer; `0` means a pure-SSM stack.
    pub attn_period: Option<usize>,
    /// SSD scan chunk length.
    pub ssd_chunk: Option<usize>,
}

impl Shape {
    /// A model with these knobs turned.
    pub fn apply(&self, cfg: Model) -> (r: Model)
        ensures
            r == (Model {
                seq_len: picked(self.seq_len, cfg.seq_len),
                state_rank: picked(self.state_rank, cfg.state_rank),
                mimo_rank: picked(self.mimo_rank, cfg.mimo_rank),
                expand: picked(self.expand, cfg.expand),
                attn_window: unless_zero(self.attn_window, cfg.attn_window),
                attn_period: unless_zero(self.attn_period, cfg.attn_period),
                ssd_chunk: match self.ssd_chunk {
                    Some(chunk) => Some(chunk),
                    None => cfg.ssd_chunk,
                },
                ..cfg
            }),
    {
        Model {
            seq_len: pick_size(self.seq_len, cfg.seq_len),
            state_rank: pick_size(self.state_rank, cfg.state_rank),
            mimo_rank: pick_size(self.mimo_rank, cfg.mimo_rank),
            expand: pick_size(self.expand, cfg.expand),
            attn_window: pick_unless_zero(self.attn_window, cfg.attn_window),
            attn_period: pick_unless_zero(self.attn_period, cfg.attn_period),
            ssd_chunk: match self.ssd_chunk {
                Some(chunk) => Some(chunk),
                None => cfg.ssd_chunk,
            },
            ..cfg
        }
    }
}

/// The precision of a group of projections, as a flag names it.
#[derive(Debug, Clone, Copy, PartialEq, Eq, Structural)]
pub enum Precision {
    Fp32,
    F16,
}

/// The knobs of a run that the command line can turn.
#[derive(Debug, Clone, Copy, PartialEq, Eq, Structural)]
pub struct Overrides {
    pub steps: Option<usize>,
    pub micro_batch: Option<usize>,
    pub accum: Option<usize>,
    pub lr: Option<Decimal>,
    pub warmup: Option<usize>,
    pub decay: Option<usize>,
    pub seed: Option<u64>,
    pub save_every: Option<usize>,
    pub eval_every: Option<usize>,
    pub log_every: Option<usize>,
    pub muon: Option<bool>,
    pub checkpointing: Option<bool>,
    pub ssd: Option<SsdMode>,
    pub head_dtype: Option<Precision>,
    pub ffn_dtype: Option<Precision>,
    pub mamba_dtype: Option<Precision>,
}

impl Overrides {
    /// The run with these knobs turned.
    pub open spec fn turned(self, run: Run) -> Run {
        Run {
            steps: picked(self.steps, run.steps),
            micro_batch: picked(self.micro_batch, run.micro_batch),
            accum: picked(self.accum, run.accum),
            lr: picked(self.lr, run.lr),
            warmup: picked(self.warmup, run.warmup),
            decay: picked(self.decay, run.decay),
            seed: picked(self.seed, run.seed),
            save_every: picked(self.save_every, run.save_every),
            eval_every: picked(self.eval_every, run.eval_every),
            log_every: picked(self.log_every, run.log_every),
            muon: picked(self.muon, run.muon),
            checkpointing: picked(self.checkpointing, run.checkpointing),
            ssd_mode: match self.ssd {
                Some(mode) => Some(mode),
                None => run.ssd_mode,
            },
            head_dtype: match self.head_dtype {
                Some(Precision::F16) => Some(HeadDtype::F16),
                Some(Precision::Fp32) => None,
                None => run.head_dtype,
            },
            ffn_dtype: match self.ffn_dtype {
                Some(Precision::F16) => Some(FfnDtype::F16),
                Some(Precision::Fp32) => None,
                None => run.ffn_dtype,
            },
            mamba_dtype: match self.mamba_dtype {
                Some(Precision::F16) => Some(MambaDtype::F16),
                Some(Precision::Fp32) => None,
                None => run.mamba_dtype,
            },
            ..run
        }
    }

    /// A run with these knobs turned.
    pub fn apply(&self, run: Run) -> (r: Run)
        ensures
            r == self.turned(run),
    {
        Run {
            steps: pick_size(self.steps, run.steps),
            micro_batch: pick_size(self.micro_batch, run.micro_batch),
            accum: pick_size(self.accum, run.accum),
            lr: match self.lr {
                Some(lr) => lr,
                None => run.lr,
            },
            warmup: pick_size(self.warmup, run.warmup),
            decay: pick_size(self.decay, run.decay),
            seed: match self.seed {
                Some(seed) => seed,
                None => run.seed,
            },
            save_every: pick_size(self.save_every, run.save_every),
            eval_every: pick_size(self.eval_every, run.eval_every),
            log_every: pick_size(self.log_every, run.log_every),
            muon: match self.muon {
                Some(muon) => muon,
                None => run.muon,
            },
            checkpointing: match self.checkpointing {
                Some(checkpointing) => checkpointing,
                None => run.checkpointing,
            },
            ssd_mode: match self.ssd {
                Some(mode) => Some(mode),
                None => run.ssd_mode,
            },
            head_dtype: match self.head_dtype {
                Some(Precision::F16) => Some(HeadDtype::F16),
                Some(Precision::Fp32) => None,
                None => run.head_dtype,
            },
            ffn_dtype: match self.ffn_dtype {
                Some(Precision::F16) => Some(FfnDtype::F16),
                Some(Precision::Fp32) => None,
                None => run.ffn_dtype,
            },
            mamba_dtype: match self.mamba_dtype {
                Some(Precision::F16) => Some(MambaDtype::F16),
                Some(Precision::Fp32) => None,
                None => run.mamba_dtype,
            },
            ..run
        }
    }
}

/// Knobs that are not turned stay where they are.
pub proof fn untouched_knobs_stay(run: Run)
    ensures
        (Overrides {
            steps: None,
            micro_batch: None,
            accum: None,
            lr: None,
            warmup: None,
            decay: None,
            seed: None,
            save_every: None,
            eval_every: None,
            log_every: None,
            muon: None,
            checkpointing: None,
            ssd: None,
            head_dtype: None,
            ffn_dtype: None,
            mamba_dtype: None,
        }).turned(run) == run,
{
}

/// Each knob that the command line turns gives its field of the run the value
/// that it names, and each that it leaves alone leaves the field as it was. What
/// has no knob stays.
pub proof fn every_knob_turns_its_field(o: Overrides, run: Run, r: Run)
    requires
        call_ensures(Overrides::apply, (&o, run), r),
    ensures
        o.steps is Some ==> r.steps == o.steps->0,
        o.steps is None ==> r.steps == run.steps,
        o.micro_batch is Some ==> r.micro_batch == o.micro_batch->0,
        o.micro_batch is None ==> r.micro_batch == run.micro_batch,
        o.accum is Some ==> r.accum == o.accum->0,
        o.accum is None ==> r.accum == run.accum,
        o.lr is Some ==> r.lr == o.lr->0,
        o.lr is None ==> r.lr == run.lr,
        o.warmup is Some ==> r.warmup == o.warmup->0,
        o.warmup is None ==> r.warmup == run.warmup,
        o.decay is Some ==> r.decay == o.decay->0,
        o.decay is None ==> r.decay == run.decay,
        o.seed is Some ==> r.seed == o.seed->0,
        o.seed is None ==> r.seed == run.seed,
        o.save_every is Some ==> r.save_every == o.save_every->0,
        o.save_every is None ==> r.save_every == run.save_every,
        o.eval_every is Some ==> r.eval_every == o.eval_every->0,
        o.eval_every is None ==> r.eval_every == run.eval_every,
        o.log_every is Some ==> r.log_every == o.log_every->0,
        o.log_every is None ==> r.log_every == run.log_every,
        o.muon is Some ==> r.muon == o.muon->0,
        o.muon is None ==> r.muon == run.muon,
        o.checkpointing is Some ==> r.checkpointing == o.checkpointing->0,
        o.checkpointing is None ==> r.checkpointing == run.checkpointing,
        o.ssd is Some ==> r.ssd_mode == o.ssd,
        o.ssd is None ==> r.ssd_mode == run.ssd_mode,
        o.head_dtype is Some ==> (r.head_dtype is Some <==> o.head_dtype->0 is F16),
        o.head_dtype is None ==> r.head_dtype == run.head_dtype,
        o.ffn_dtype is Some ==> (r.ffn_dtype is Some <==> o.ffn_dtype->0 is F16),
        o.ffn_dtype is None ==> r.ffn_dtype == run.ffn_dtype,
        o.mamba_dtype is Some ==> (r.mamba_dtype is Some <==> o.mamba_dtype->0 is F16),
        o.mamba_dtype is None ==> r.mamba_dtype == run.mamba_dtype,
        r.lr_floor == run.lr_floor,
        r.weight_decay == run.weight_decay,
        r.clip == run.clip,
        r.eval_batches == run.eval_batches,
{
}

/// Each knob of the shape gives its field of the model the value that it names;
/// a window or a period of zero takes it away. Each that is left alone, and what
/// has no knob, stays.
pub proof fn every_knob_turns_its_part_of_the_shape(o: Shape, cfg: Model, r: Model)
    requires
        call_ensures(Shape::apply, (&o, cfg), r),
    ensures
        o.seq_len is Some ==> r.seq_len == o.seq_len->0,
        o.seq_len is None ==> r.seq_len == cfg.seq_len,
        o.state_rank is Some ==> r.state_rank == o.state_rank->0,
        o.state_rank is None ==> r.state_rank == cfg.state_rank,
        o.mimo_rank is Some ==> r.mimo_rank == o.mimo_rank->0,
        o.mimo_rank is None ==> r.mimo_rank == cfg.mimo_rank,
        o.expand is Some ==> r.expand == o.expand->0,
        o.expand is None ==> r.expand == cfg.expand,
        o.attn_window == Some(0usize) ==> r.attn_window is None,
        o.attn_window is Some && o.attn_window->0 > 0 ==> r.attn_window == o.attn_window,
        o.attn_window is None ==> r.attn_window == cfg.attn_window,
        o.attn_period == Some(0usize) ==> r.attn_period is None,
        o.attn_period is Some && o.attn_period->0 > 0 ==> r.attn_period == o.attn_period,
        o.attn_period is None ==> r.attn_period == cfg.attn_period,
        o.ssd_chunk is Some ==> r.ssd_chunk == o.ssd_chunk,
        o.ssd_chunk is None ==> r.ssd_chunk == cfg.ssd_chunk,
        (Model {
            seq_len: cfg.seq_len,
            state_rank: cfg.state_rank,
            mimo_rank: cfg.mimo_rank,
            expand: cfg.expand,
            attn_window: cfg.attn_window,
            attn_period: cfg.attn_period,
            ssd_chunk: cfg.ssd_chunk,
            ..r
        }) == cfg,
{
}

/// No two presets have one name.
pub proof fn presets_differ_in_name(a: Preset, b: Preset, na: &str, nb: &str)
    requires
        call_ensures(Preset::name, (a,), na),
        call_ensures(Preset::name, (b,), nb),
    ensures
        na@ == nb@ ==> a == b,
{
    reveal_strlit("tiny");
    reveal_strlit("tiny-turbo");
    reveal_strlit("base");
    reveal_strlit("factorio-nano");
    reveal_strlit("toy");
    assert("tiny"@.len() == 4 && "tiny-turbo"@.len() == 10 && "factorio-nano"@.len() == 13
        && "toy"@.len() == 3);
    assert("tiny"@[0] == 't' && "base"@[0] == 'b' && "base"@.len() == 4);
}

/// What the presets change about the default recipe keeps its batch where they
/// only trade memory for passes, and keeps its proportions where they change its
/// length: a twentieth of the steps warms up and a fifth decays, and the run is
/// evaluated, saved and logged so many times over.
pub proof fn presets_keep_the_proportions(preset: Preset, run: Run, recipe: Run)
    requires
        call_ensures(Preset::run_defaults, (preset,), run),
        call_ensures(Run::new, (), recipe),
    ensures
        run.seed == recipe.seed,
        run.weight_decay == recipe.weight_decay,
        run.clip == recipe.clip,
        run.muon == recipe.muon,
        run.eval_batches == recipe.eval_batches,
        run.lr_floor == recipe.lr_floor,
        preset is Tiny || preset is Base || preset is Toy ==> run == recipe,
        preset is TinyTurbo ==> {
            &&& run.micro_batch * run.accum == recipe.micro_batch * recipe.accum
            &&& 2 * run.micro_batch == recipe.micro_batch
            &&& !run.checkpointing
            &&& run.ssd_mode == Some(SsdMode::Serial)
            &&& run.head_dtype is Some
            &&& run.ffn_dtype is Some
            &&& run.mamba_dtype is Some
            &&& run.steps == recipe.steps
            &&& run.lr == recipe.lr
            &&& run.warmup == recipe.warmup
            &&& run.decay == recipe.decay
            &&& run.eval_every == recipe.eval_every
            &&& run.save_every == recipe.save_every
            &&& run.log_every == recipe.log_every
        },
        preset is FactorioNano ==> {
            &&& run.accum == 1
            &&& run.micro_batch == 4 * recipe.micro_batch
            &&& 20 * run.warmup <= run.steps < 20 * run.warmup + 20
            &&& 5 * run.decay <= run.steps < 5 * run.decay + 5
            &&& 20 * run.eval_every <= run.steps < 20 * run.eval_every + 20
            &&& 4 * run.save_every <= run.steps < 4 * run.save_every + 4
            &&& 60 * run.log_every <= run.steps < 60 * run.log_every + 60
            &&& run.lr.exp == recipe.lr.exp - 1
            &&& 2 * run.lr.digits == 10 * recipe.lr.digits
            &&& !run.checkpointing
            &&& run.ssd_mode == Some(SsdMode::Serial)
            &&& run.head_dtype is None
            &&& run.ffn_dtype is None
            &&& run.mamba_dtype is None
            &&& (run.steps - 1) * (run.micro_batch * factorio::SEQ_LEN) < 20
                * factorio::nano_shape().weights() <= run.steps * (run.micro_batch
                * factorio::SEQ_LEN)
        },
{
    nano_counts();
    if preset is FactorioNano {
        assert((4299 - 1) * 16_384 < 70_427_200 <= 4299 * 16_384);
    }
}

} // verus!
