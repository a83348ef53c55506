//! The model family and its parameter arithmetic.
//!
//! The two shipped language presets are [`Model::tiny`] and [`Model::base`].

use vstd::prelude::*;

use crate::decimal;
use crate::decimal::Decimal;
use crate::math;
use crate::text;

pub mod counts;
pub mod factorio;
pub mod laws;

verus! {

/// How the chunked SSD recurrence is evaluated during training.
///
/// All variants have the same forward and gradients. `Recalculated` retains
/// only the inputs of the SSD and rebuilds its intermediates in the backward;
/// `Serial` lets autodiff retain the chunkwise intermediates; `Minimal` uses a
/// mostly batched formulation and lets autodiff retain its graph.
#[derive(Debug, Clone, Copy, PartialEq, Eq, Structural)]
pub enum SsdMode {
    Minimal,
    Serial,
    Recalculated,
}

impl Default for SsdMode {
    fn default() -> (r: Self)
        ensures
            r == SsdMode::Recalculated,
    {
        SsdMode::Recalculated
    }
}

/// Reduced compute type of the output-head GEMM.
#[derive(Debug, Clone, Copy, PartialEq, Eq, Structural)]
pub enum HeadDtype {
    F16,
}

/// Reduced compute type of the three feed-forward GEMMs.
#[derive(Debug, Clone, Copy, PartialEq, Eq, Structural)]
pub enum FfnDtype {
    F16,
}

/// Reduced compute type of the Mamba input and output projections.
#[derive(Debug, Clone, Copy, PartialEq, Eq, Structural)]
pub enum MambaDtype {
    F16,
}

/// What mixes tokens in a layer.
///
/// A pure-SSM stack recalls an arbitrary earlier token poorly: its memory is a
/// fixed-size summary. Which layers are attention instead is
/// [`Model::attn_period`].
#[derive(Debug, Clone, Copy, PartialEq, Eq, Structural)]
pub enum Mixer {
    /// Mamba-3 SSD: trapezoidal discretisation, data-dependent RoPE, MIMO.
    Ssm,
    /// Grouped-query attention over a sliding window.
    Attention,
}

/// The fraction of state dimensions that carry data-dependent RoPE.
#[derive(Debug, Clone, Copy, PartialEq, Eq, Structural)]
pub enum Rope {
    Off,
    /// Half of them, which is what restores state tracking.
    Half,
    All,
}

/// One Mamba-3 block.
#[derive(Debug, Clone, Copy, PartialEq, Eq, Structural)]
pub struct Mamba {
    pub d_model: usize,
    pub state_rank: usize,
    pub expand: usize,
    pub per_head_dim: usize,
    pub ngroups: usize,
    pub mimo_rank: usize,
    pub rope_fraction: Rope,
    /// A per-head gated RMSNorm before the output projection.
    pub has_outproj_norm: bool,
}

impl Mamba {
    /// The width of the block.
    pub open spec fn inner(self) -> int {
        self.expand * self.d_model
    }

    /// The heads of the block.
    pub open spec fn heads(self) -> int {
        self.inner() / (self.per_head_dim as int)
    }

    /// How many angles the rotary embedding has: one for each pair of the
    /// dimensions that carry it.
    pub open spec fn angles(self) -> int {
        match self.rope_fraction {
            Rope::Off => 0,
            Rope::Half => self.state_rank as int / 4,
            Rope::All => self.state_rank as int / 2,
        }
    }

    /// The width of the input projection: the gating branch and the values, `B` and
    /// `C` for each group and channel, three scalars for each head, and the
    /// angles.
    pub open spec fn in_width(self) -> int {
        2 * self.inner() + 2 * self.ngroups * self.state_rank * self.mimo_rank + 3 * self.heads()
            + self.angles()
    }

    /// The width of the input projection.
    pub fn d_in_proj(&self) -> (r: usize)
        requires
            self.per_head_dim > 0,
            self.in_width() <= usize::MAX,
        ensures
            r == self.in_width(),
    {
        proof {
            mamba_parts(*self);
        }
        let inner = math::times(self.expand, self.d_model);
        let heads = inner / self.per_head_dim;
        let angles = match self.rope_fraction {
            Rope::Off => 0,
            Rope::Half => self.state_rank / 4,
            Rope::All => self.state_rank / 2,
        };
        2 * inner + math::times4(2, self.ngroups, self.state_rank, self.mimo_rank) + 3 * heads
            + angles
    }
}

proof fn mamba_parts(m: Mamba)
    requires
        m.per_head_dim > 0,
    ensures
        m.inner() >= 0,
        m.heads() >= 0,
        m.angles() >= 0,
        2 * m.ngroups * m.state_rank * m.mimo_rank >= 0,
{
    assert(m.expand * m.d_model >= 0) by (nonlinear_arith);
    vstd::arithmetic::div_mod::lemma_div_pos_is_pos(m.inner(), m.per_head_dim as int);
    assert(2 * m.ngroups * m.state_rank >= 0) by (nonlinear_arith);
    assert((2 * m.ngroups * m.state_rank) * m.mimo_rank >= 0) by (nonlinear_arith)
        requires
            2 * m.ngroups * m.state_rank >= 0,
    ;
}

/// The chunk length that suits an SSD scan: the smallest multiple of 32 whose
/// square reaches `state_rank * head_dim`.
pub open spec fn suits_scan(state_rank: nat, head_dim: nat, chunk: nat) -> bool {
    &&& chunk % 32 == 0
    &&& chunk * chunk >= state_rank * head_dim
    &&& chunk >= 32 ==> (chunk - 32) * (chunk - 32) < state_rank * head_dim
}

/// The chunk length that suits an SSD scan: the square root of
/// `state_rank * head_dim`, rounded up to a multiple of 32.
pub fn optimal_chunk_len(state_rank: usize, head_dim: usize) -> (r: usize)
    requires
        state_rank * head_dim <= usize::MAX,
    ensures
        suits_scan(state_rank as nat, head_dim as nat, r as nat),
{
    let product: u128 = math::times(state_rank, head_dim) as u128;
    let mut chunk: u128 = 0;
    while chunk * chunk < product
        invariant
            product <= u64::MAX,
            product == state_rank * head_dim,
            product <= usize::MAX,
            chunk % 32 == 0,
            32 * (chunk - 32) <= product,
            chunk <= 0x1_0000_0020,
            chunk >= 32 ==> (chunk - 32) * (chunk - 32) < product,
            chunk * chunk <= u128::MAX,
        decreases product + 32 - chunk,
    {
        proof {
            if chunk >= 32 {
                assert(32 * chunk <= chunk * chunk) by (nonlinear_arith)
                    requires
                        chunk >= 32,
                ;
            }
            if chunk > 0x1_0000_0000 {
                assert(chunk * chunk > 0x1_0000_0000 * 0x1_0000_0000) by (nonlinear_arith)
                    requires
                        chunk > 0x1_0000_0000,
                ;
            }
        }
        chunk = chunk + 32;
        proof {
            assert(chunk * chunk <= 0x1_0000_0020 * 0x1_0000_0020) by (nonlinear_arith)
                requires
                    0 <= chunk <= 0x1_0000_0020,
            ;
        }
    }
    chunk as usize
}

/// The largest divisor of `n` that does not exceed `bound`; 0 where there is
/// none.
pub open spec fn largest_divisor(n: nat, bound: nat) -> nat
    decreases bound,
{
    if bound == 0 {
        0
    } else if n % bound == 0 {
        bound
    } else {
        largest_divisor(n, (bound - 1) as nat)
    }
}

/// `largest_divisor` is what it is called.
pub proof fn largest_divisor_is(n: nat, bound: nat)
    ensures
        largest_divisor(n, bound) <= bound,
        bound >= 1 ==> largest_divisor(n, bound) >= 1 && n % largest_divisor(n, bound) == 0,
        forall|d: nat| largest_divisor(n, bound) < d <= bound ==> #[trigger] (n % d) != 0,
    decreases bound,
{
    if bound > 0 && n % bound != 0 {
        largest_divisor_is(n, (bound - 1) as nat);
        if bound == 1 {
            assert(n % 1 == 0);
        }
        assert forall|d: nat| largest_divisor(n, bound) < d <= bound implies #[trigger] (n % d)
            != 0 by {
            if d < bound {
                assert(n % d != 0);
            }
        }
    }
}

/// One quasar model.
#[derive(Debug, Clone, Copy, PartialEq, Eq, Structural)]
pub struct Model {
    pub vocab_size: usize,
    pub d_model: usize,
    pub n_layers: usize,
    /// Sequence length the model trains at.
    pub seq_len: usize,
    /// SSM state width. The recurrent memory is `n_heads * head_dim *
    /// state_rank` scalars per layer.
    pub state_rank: usize,
    pub expand: usize,
    pub head_dim: usize,
    /// B/C sharing groups across SSM heads.
    pub n_groups: usize,
    /// Parallel read and write channels into one state.
    pub mimo_rank: usize,
    pub rope_fraction: Rope,
    /// Chunk length of the SSD scan; `None` resolves to
    /// [`Model::ssd_chunk_len`].
    pub ssd_chunk: Option<usize>,
    /// Every `attn_period`-th layer is attention instead of SSM; `None` gives a
    /// pure-SSM stack.
    pub attn_period: Option<usize>,
    pub attn_heads: usize,
    pub attn_kv_heads: usize,
    /// Sliding-window radius in tokens; `None` is full causal attention.
    pub attn_window: Option<usize>,
    /// SwiGLU hidden width as a multiple of `d_model`, rounded up to 64.
    pub ffn_mult: Decimal,
    /// Share the embedding matrix with the output projection.
    pub tied_embeddings: bool,
    /// Coefficient of the auxiliary term that holds the softmax normaliser near
    /// 1. Zero disables it.
    pub z_loss: Decimal,
}

/// Why a [`Model`] cannot be built.
#[derive(Debug, Clone, Copy, PartialEq, Eq, Structural)]
pub enum Invalid {
    OddStateRank(usize),
    HeadDim { head_dim: usize, d_inner: usize },
    Groups { groups: usize, heads: usize },
    MimoRank,
    AttnHeads { heads: usize, d_model: usize },
    KvHeads { kv: usize, heads: usize },
}

impl Invalid {
    /// The mistake in words.
    pub open spec fn words(self) -> Seq<char> {
        match self {
            Invalid::OddStateRank(n) => "state_rank "@ + text::decimal(n as nat)
                + " is odd, RoPE pairs dimensions"@,
            Invalid::HeadDim { head_dim, d_inner } => "head_dim "@ + text::decimal(head_dim as nat)
                + " does not divide d_inner "@ + text::decimal(d_inner as nat),
            Invalid::Groups { groups, heads } => "n_groups "@ + text::decimal(groups as nat)
                + " does not divide "@ + text::decimal(heads as nat) + " SSM heads"@,
            Invalid::MimoRank => "mimo_rank must be at least 1"@,
            Invalid::AttnHeads { heads, d_model } => "attn_heads "@ + text::decimal(heads as nat)
                + " does not divide d_model "@ + text::decimal(d_model as nat),
            Invalid::KvHeads { kv, heads } => "attn_kv_heads "@ + text::decimal(kv as nat)
                + " does not divide attn_heads "@ + text::decimal(heads as nat),
        }
    }

    /// The mistake in words.
    pub fn message(&self) -> (r: String)
        ensures
            r@ == self.words(),
    {
        let mut out = String::new();
        match self {
            Invalid::OddStateRank(n) => {
                out.append("state_rank ");
                text::push_decimal(&mut out, *n as u64);
                out.append(" is odd, RoPE pairs dimensions");
            },
            Invalid::HeadDim { head_dim, d_inner } => {
                out.append("head_dim ");
                text::push_decimal(&mut out, *head_dim as u64);
                out.append(" does not divide d_inner ");
                text::push_decimal(&mut out, *d_inner as u64);
            },
            Invalid::Groups { groups, heads } => {
                out.append("n_groups ");
                text::push_decimal(&mut out, *groups as u64);
                out.append(" does not divide ");
                text::push_decimal(&mut out, *heads as u64);
                out.append(" SSM heads");
            },
            Invalid::MimoRank => {
                out.append("mimo_rank must be at least 1");
            },
            Invalid::AttnHeads { heads, d_model } => {
                out.append("attn_heads ");
                text::push_decimal(&mut out, *heads as u64);
                out.append(" does not divide d_model ");
                text::push_decimal(&mut out, *d_model as u64);
            },
            Invalid::KvHeads { kv, heads } => {
                out.append("attn_kv_heads ");
                text::push_decimal(&mut out, *kv as u64);
                out.append(" does not divide attn_heads ");
                text::push_decimal(&mut out, *heads as u64);
            },
        }
        assert(out@ =~= self.words());
        out
    }
}

/// `d` divides `n`; zero divides zero alone.
pub open spec fn divides(d: int, n: int) -> bool {
    if d == 0 {
        n == 0
    } else {
        n % d == 0
    }
}

impl Model {
    /// The SSM width.
    pub open spec fn inner(self) -> int {
        self.expand * self.d_model
    }

    /// The SSM heads.
    pub open spec fn heads(self) -> int {
        self.inner() / (self.head_dim as int)
    }

    /// The feed-forward width before it is rounded up.
    pub open spec fn ffn_raw(self) -> int {
        decimal::scaled(self.d_model as nat, self.ffn_mult) as int
    }

    /// The feed-forward width.
    pub open spec fn ffn(self) -> int {
        math::quotient_up(self.ffn_raw(), 64) * 64
    }

    /// The mixer of layer `index`.
    pub open spec fn mixer_of(self, index: int) -> Mixer {
        match self.attn_period {
            Some(period) => if index > 0 && period > 0 && (index + 1) % (period as int) == 0 {
                Mixer::Attention
            } else {
                Mixer::Ssm
            },
            None => Mixer::Ssm,
        }
    }

    /// How many of the first `n` layers have this mixer.
    pub open spec fn layers(self, mixer: Mixer, n: nat) -> nat
        decreases n,
    {
        if n == 0 {
            0
        } else if self.mixer_of(n - 1) == mixer {
            self.layers(mixer, (n - 1) as nat) + 1
        } else {
            self.layers(mixer, (n - 1) as nat)
        }
    }

    /// The SSM layers.
    pub open spec fn ssm_layers(self) -> nat {
        self.layers(Mixer::Ssm, self.n_layers as nat)
    }

    /// The attention layers.
    pub open spec fn attn_layers(self) -> nat {
        self.layers(Mixer::Attention, self.n_layers as nat)
    }

    /// The block of one SSM layer.
    pub open spec fn mamba_of(self) -> Mamba {
        Mamba {
            d_model: self.d_model,
            state_rank: self.state_rank,
            expand: self.expand,
            per_head_dim: self.head_dim,
            ngroups: self.n_groups,
            mimo_rank: self.mimo_rank,
            rope_fraction: self.rope_fraction,
            has_outproj_norm: true,
        }
    }

    /// The first reason why the model cannot be built.
    pub open spec fn mistake(self) -> Option<Invalid> {
        if self.state_rank % 2 != 0 {
            Some(Invalid::OddStateRank(self.state_rank))
        } else if !divides(self.head_dim as int, self.inner()) {
            Some(Invalid::HeadDim { head_dim: self.head_dim, d_inner: self.inner() as usize })
        } else if !divides(self.n_groups as int, self.heads()) {
            Some(Invalid::Groups { groups: self.n_groups, heads: self.heads() as usize })
        } else if self.mimo_rank == 0 {
            Some(Invalid::MimoRank)
        } else if self.attn_period is Some && !divides(
            self.attn_heads as int,
            self.d_model as int,
        ) {
            Some(Invalid::AttnHeads { heads: self.attn_heads, d_model: self.d_model })
        } else if self.attn_period is Some && !divides(
            self.attn_kv_heads as int,
            self.attn_heads as int,
        ) {
            Some(Invalid::KvHeads { kv: self.attn_kv_heads, heads: self.attn_heads })
        } else {
            None
        }
    }

    /// A model with the default shape around three sizes.
    pub fn new(vocab_size: usize, d_model: usize, n_layers: usize) -> (r: Self)
        ensures
            r == Model::of(vocab_size, d_model, n_layers),
    {
        Model {
            vocab_size,
            d_model,
            n_layers,
            seq_len: 2048,
            state_rank: 128,
            expand: 2,
            head_dim: 64,
            n_groups: 1,
            mimo_rank: 1,
            rope_fraction: Rope::Half,
            ssd_chunk: None,
            attn_period: None,
            attn_heads: 12,
            attn_kv_heads: 2,
            attn_window: Some(1024),
            ffn_mult: Decimal { digits: 25, exp: -1 },
            tied_embeddings: true,
            z_loss: Decimal { digits: 1, exp: -4 },
        }
    }

    /// The default shape around three sizes.
    pub open spec fn of(vocab_size: usize, d_model: usize, n_layers: usize) -> Self {
        Model {
            vocab_size,
            d_model,
            n_layers,
            seq_len: 2048,
            state_rank: 128,
            expand: 2,
            head_dim: 64,
            n_groups: 1,
            mimo_rank: 1,
            rope_fraction: Rope::Half,
            ssd_chunk: None,
            attn_period: None,
            attn_heads: 12,
            attn_kv_heads: 2,
            attn_window: Some(1024),
            ffn_mult: Decimal { digits: 25, exp: -1 as i32 },
            tied_embeddings: true,
            z_loss: Decimal { digits: 1, exp: -4 as i32 },
        }
    }

    /// The same model, trained at another sequence length.
    pub fn with_seq_len(self, seq_len: usize) -> (r: Self)
        ensures
            r == (Model { seq_len, ..self }),
    {
        Model { seq_len, ..self }
    }

    /// The same model with another state width.
    pub fn with_state_rank(self, state_rank: usize) -> (r: Self)
        ensures
            r == (Model { state_rank, ..self }),
    {
        Model { state_rank, ..self }
    }

    /// The same model with another expansion.
    pub fn with_expand(self, expand: usize) -> (r: Self)
        ensures
            r == (Model { expand, ..self }),
    {
        Model { expand, ..self }
    }

    /// The same model with another SSM head width.
    pub fn with_head_dim(self, head_dim: usize) -> (r: Self)
        ensures
            r == (Model { head_dim, ..self }),
    {
        Model { head_dim, ..self }
    }

    /// The same model with another number of groups.
    pub fn with_n_groups(self, n_groups: usize) -> (r: Self)
        ensures
            r == (Model { n_groups, ..self }),
    {
        Model { n_groups, ..self }
    }

    /// The same model with another number of channels.
    pub fn with_mimo_rank(self, mimo_rank: usize) -> (r: Self)
        ensures
            r == (Model { mimo_rank, ..self }),
    {
        Model { mimo_rank, ..self }
    }

    /// The same model with another share of rotary dimensions.
    pub fn with_rope_fraction(self, rope_fraction: Rope) -> (r: Self)
        ensures
            r == (Model { rope_fraction, ..self }),
    {
        Model { rope_fraction, ..self }
    }

    /// The same model with another chunk length.
    pub fn with_ssd_chunk(self, ssd_chunk: Option<usize>) -> (r: Self)
        ensures
            r == (Model { ssd_chunk, ..self }),
    {
        Model { ssd_chunk, ..self }
    }

    /// The same model with attention on other layers.
    pub fn with_attn_period(self, attn_period: Option<usize>) -> (r: Self)
        ensures
            r == (Model { attn_period, ..self }),
    {
        Model { attn_period, ..self }
    }

    /// The same model with another number of attention heads.
    pub fn with_attn_heads(self, attn_heads: usize) -> (r: Self)
        ensures
            r == (Model { attn_heads, ..self }),
    {
        Model { attn_heads, ..self }
    }

    /// The same model with another number of key and value heads.
    pub fn with_attn_kv_heads(self, attn_kv_heads: usize) -> (r: Self)
        ensures
            r == (Model { attn_kv_heads, ..self }),
    {
        Model { attn_kv_heads, ..self }
    }

    /// The same model with another attention window.
    pub fn with_attn_window(self, attn_window: Option<usize>) -> (r: Self)
        ensures
            r == (Model { attn_window, ..self }),
    {
        Model { attn_window, ..self }
    }

    /// The same model with another feed-forward width.
    pub fn with_ffn_mult(self, ffn_mult: Decimal) -> (r: Self)
        ensures
            r == (Model { ffn_mult, ..self }),
    {
        Model { ffn_mult, ..self }
    }

    /// The same model with its head tied to its embedding, or not.
    pub fn with_tied_embeddings(self, tied_embeddings: bool) -> (r: Self)
        ensures
            r == (Model { tied_embeddings, ..self }),
    {
        Model { tied_embeddings, ..self }
    }

    /// The same model with another coefficient of the auxiliary term.
    pub fn with_z_loss(self, z_loss: Decimal) -> (r: Self)
        ensures
            r == (Model { z_loss, ..self }),
    {
        Model { z_loss, ..self }
    }

    /// `quasar-tiny`, 164M: the model intended for the first full run.
    ///
    /// Deep and thin (24 x 640). Its compute-efficient target is about 3.25B
    /// tokens.
    pub fn tiny() -> (r: Self)
        ensures
            r == (Model {
                n_groups: 2,
                mimo_rank: 2,
                attn_period: Some(6),
                attn_heads: 10,
                ..Model::of(32_768, 640, 24)
            }),
    {
        Model::new(32_768, 640, 24)
            .with_seq_len(2048)
            .with_state_rank(128)
            .with_head_dim(64)
            .with_n_groups(2)
            .with_mimo_rank(2)
            .with_attn_period(Some(6))
            .with_attn_heads(10)
            .with_attn_kv_heads(2)
            .with_attn_window(Some(1024))
            .with_ffn_mult(Decimal { digits: 25, exp: -1 })
            .with_tied_embeddings(true)
    }

    /// `quasar-base`, 1.14B: the largest model whose weights, gradients and
    /// Adam moments still fit 16 GB in bf16.
    pub fn base() -> (r: Self)
        ensures
            r == (Model {
                n_groups: 4,
                mimo_rank: 4,
                attn_period: Some(7),
                attn_heads: 24,
                attn_kv_heads: 4,
                tied_embeddings: false,
                ..Model::of(32_768, 1536, 28)
            }),
    {
        Model::new(32_768, 1536, 28)
            .with_seq_len(2048)
            .with_state_rank(128)
            .with_head_dim(64)
            .with_n_groups(4)
            .with_mimo_rank(4)
            .with_attn_period(Some(7))
            .with_attn_heads(24)
            .with_attn_kv_heads(4)
            .with_attn_window(Some(1024))
            .with_ffn_mult(Decimal { digits: 25, exp: -1 })
            // Untied here: the embedding is only 4.4% of this budget, and a tied
            // matrix is shaped by output prediction at the input's expense.
            .with_tied_embeddings(false)
    }

    /// `quasar-tiny-turbo`, 78M: the cheapest model still worth training.
    ///
    /// `mimo_rank 1` divides the intra-chunk SSD tensors by four, `state_rank
    /// 64` halves the retained `B` and `C`, a 256-token window scores a fifth of
    /// the pairs a 1024 one does, and a 1024-token sequence halves what is left.
    pub fn tiny_turbo() -> (r: Self)
        ensures
            r == (Model {
                seq_len: 1024,
                state_rank: 64,
                attn_period: Some(5),
                attn_heads: 10,
                attn_window: Some(256),
                ffn_mult: Decimal { digits: 2, exp: 0 },
                ..Model::of(32_768, 640, 12)
            }),
    {
        Model::new(32_768, 640, 12)
            .with_seq_len(1024)
            .with_state_rank(64)
            .with_head_dim(64)
            .with_n_groups(1)
            .with_mimo_rank(1)
            .with_attn_period(Some(5))
            .with_attn_heads(10)
            .with_attn_kv_heads(2)
            .with_attn_window(Some(256))
            .with_ffn_mult(Decimal { digits: 2, exp: 0 })
            .with_tied_embeddings(true)
    }

    /// A model small enough to train a few steps inside a unit test.
    pub fn toy() -> (r: Self)
        ensures
            r == (Model {
                seq_len: 16,
                state_rank: 8,
                head_dim: 8,
                mimo_rank: 2,
                attn_period: Some(2),
                attn_heads: 4,
                attn_window: Some(8),
                ffn_mult: Decimal { digits: 2, exp: 0 },
                ..Model::of(64, 32, 4)
            }),
    {
        Model::new(64, 32, 4)
            .with_seq_len(16)
            .with_state_rank(8)
            .with_head_dim(8)
            .with_mimo_rank(2)
            .with_attn_period(Some(2))
            .with_attn_heads(4)
            .with_attn_kv_heads(2)
            .with_attn_window(Some(8))
            .with_ffn_mult(Decimal { digits: 2, exp: 0 })
    }

    /// The mixer of layer `index`.
    ///
    /// Attention lands on the *last* layer of each period, and layer 0, the one
    /// reading raw embeddings, is always an SSM.
    pub fn mixer(&self, index: usize) -> (r: Mixer)
        requires
            index < usize::MAX,
        ensures
            r == self.mixer_of(index as int),
    {
        match self.attn_period {
            Some(period) => if index > 0 && period > 0 && (index + 1) % period == 0 {
                Mixer::Attention
            } else {
                Mixer::Ssm
            },
            None => Mixer::Ssm,
        }
    }

    /// SwiGLU hidden width, rounded to a multiple of 64 so GEMM tiles are whole.
    pub fn d_ff(&self) -> (r: usize)
        requires
            self.ffn() <= usize::MAX,
        ensures
            r == self.ffn(),
    {
        proof {
            math::quotient_up_covers(self.ffn_raw(), 64);
        }
        let raw = decimal::scale(self.d_model as u64, self.ffn_mult);
        math::div_up(raw as usize, 64) * 64
    }

    /// The SSM width.
    pub fn d_inner(&self) -> (r: usize)
        requires
            self.inner() <= usize::MAX,
        ensures
            r == self.inner(),
    {
        math::times(self.expand, self.d_model)
    }

    /// The SSM heads.
    pub fn n_heads(&self) -> (r: usize)
        requires
            self.inner() <= usize::MAX,
            self.head_dim > 0,
        ensures
            r == self.heads(),
    {
        self.d_inner() / self.head_dim
    }

    /// The block of one SSM layer. The per-head gated RMSNorm before the output
    /// projection keeps the output scale stable once MIMO sums several read
    /// channels into it.
    pub fn mamba(&self) -> (r: Mamba)
        ensures
            r == self.mamba_of(),
    {
        Mamba {
            d_model: self.d_model,
            state_rank: self.state_rank,
            expand: self.expand,
            per_head_dim: self.head_dim,
            ngroups: self.n_groups,
            mimo_rank: self.mimo_rank,
            rope_fraction: self.rope_fraction,
            has_outproj_norm: true,
        }
    }

    /// `chunk` is the chunk length of the SSD scan.
    pub open spec fn is_chunk_len(self, chunk: usize) -> bool {
        match self.ssd_chunk {
            Some(c) => chunk == if c >= 1 {
                c
            } else {
                1
            },
            None => exists|optimal: nat| #[trigger]
                suits_scan(self.state_rank as nat, self.head_dim as nat, optimal) && chunk == {
                    let bound = if optimal < self.seq_len {
                        optimal
                    } else {
                        self.seq_len as nat
                    };
                    if bound == 0 {
                        optimal
                    } else {
                        largest_divisor(self.seq_len as nat, bound)
                    }
                },
        }
    }

    /// The resolved SSD chunk length.
    ///
    /// A scan pads its sequence up to a multiple of its chunk length. The chunk
    /// length that suits a scan of `tiny` is 96, which does not divide 2048: the
    /// default is therefore the largest divisor of `seq_len` not exceeding it,
    /// 64 for `tiny`.
    pub fn ssd_chunk_len(&self) -> (r: usize)
        requires
            self.ssd_chunk is None ==> self.state_rank * self.head_dim <= usize::MAX,
        ensures
            self.is_chunk_len(r),
    {
        match self.ssd_chunk {
            Some(chunk) => if chunk >= 1 {
                chunk
            } else {
                1
            },
            None => {
                let optimal = optimal_chunk_len(self.state_rank, self.head_dim);
                let bound = if optimal < self.seq_len {
                    optimal
                } else {
                    self.seq_len
                };
                if bound == 0 {
                    return optimal;
                }
                let mut chunk: usize = bound;
                while self.seq_len % chunk != 0
                    invariant
                        1 <= chunk <= bound,
                        largest_divisor(self.seq_len as nat, bound as nat) == largest_divisor(
                            self.seq_len as nat,
                            chunk as nat,
                        ),
                    decreases chunk,
                {
                    if chunk == 1 {
                        assert(self.seq_len % 1 == 0);
                    }
                    chunk = chunk - 1;
                }
                chunk
            },
        }
    }

    /// Whether the model can be built, and if not, why.
    pub fn validate(&self) -> (r: Result<(), Invalid>)
        requires
            self.inner() <= usize::MAX,
            self.state_rank % 2 == 0 ==> self.head_dim > 0 || self.inner() > 0,
        ensures
            match self.mistake() {
                Some(mistake) => r == Err::<(), Invalid>(mistake),
                None => r is Ok,
            },
    {
        if !self.state_rank.is_multiple_of(2) {
            return Err(Invalid::OddStateRank(self.state_rank));
        }
        let d_inner = self.d_inner();
        if !d_inner.is_multiple_of(self.head_dim) {
            return Err(Invalid::HeadDim { head_dim: self.head_dim, d_inner });
        }
        let heads = self.n_heads();
        if !heads.is_multiple_of(self.n_groups) {
            return Err(Invalid::Groups { groups: self.n_groups, heads });
        }
        if self.mimo_rank == 0 {
            return Err(Invalid::MimoRank);
        }
        if self.attn_period.is_some() {
            if !self.d_model.is_multiple_of(self.attn_heads) {
                return Err(Invalid::AttnHeads { heads: self.attn_heads, d_model: self.d_model });
            }
            if !self.attn_heads.is_multiple_of(self.attn_kv_heads) {
                return Err(Invalid::KvHeads { kv: self.attn_kv_heads, heads: self.attn_heads });
            }
        }
        Ok(())
    }
}

/// A parameter budget, in parameters.
#[derive(Debug, Clone, Copy, PartialEq, Eq, Structural)]
pub struct Budget {
    pub embedding: usize,
    pub head: usize,
    pub ssm: usize,
    pub attention: usize,
    pub ffn: usize,
    pub norms: usize,
    pub total: usize,
}

/// An activation budget, in bytes per micro-batch.
#[derive(Debug, Clone, Copy, PartialEq, Eq, Structural)]
pub struct Activations {
    pub ssm: u128,
    pub attention: u128,
    pub ffn: u128,
    pub head: u128,
    pub total: u128,
}

/// The pairs that the attention blocks from `start` on score: each block of
/// `window` queries against its own keys and the `window - 1` before them.
pub open spec fn block_pairs(seq: int, window: int, start: int) -> int
    decreases
            (if start < seq {
                seq - start
            } else {
                0
            }),
{
    if window <= 0 || start >= seq {
        0
    } else {
        let end = if seq - start < window {
            seq
        } else {
            start + window
        };
        let first = if start + 1 < window {
            0
        } else {
            start + 1 - window
        };
        (end - start) * (end - first) + block_pairs(seq, window, start + window)
    }
}

impl Model {
    /// The parameters of one SSM layer.
    pub open spec fn ssm_weights(self) -> int {
        let (heads, n, r) = (self.heads(), self.state_rank as int, self.mimo_rank as int);
        let projections = self.d_model * self.mamba_of().in_width() + self.inner() * self.d_model;
        let mimo = if r > 1 {
            3 * heads * r * self.head_dim
        } else {
            0
        };
        // dt_bias and D, the two B/C RMSNorm gammas, their per-head biases, and
        // the gated out-norm's gamma.
        let small = 2 * heads + 2 * n + 2 * heads * r * n + self.head_dim;
        projections + mimo + small
    }

    /// The width of one attention head.
    pub open spec fn attn_head(self) -> int {
        self.d_model as int / (self.attn_heads as int)
    }

    /// The parameters of one attention layer: `q`, `k`, `v`, `o` without
    /// biases, plus the two QK-norm gammas.
    pub open spec fn attn_weights(self) -> int {
        let d = self.d_model as int;
        2 * d * d + 2 * d * (self.attn_kv_heads * self.attn_head()) + 2 * self.attn_head()
    }

    /// The parameters of the embedding.
    pub open spec fn embedding_weights(self) -> int {
        self.vocab_size * self.d_model
    }

    /// The parameters of the output head that are not the embedding's.
    pub open spec fn head_weights(self) -> int {
        if self.tied_embeddings {
            0
        } else {
            self.vocab_size * self.d_model
        }
    }

    /// The parameters of all feed-forward layers.
    pub open spec fn ffn_weights(self) -> int {
        self.n_layers * 3 * self.d_model * self.ffn()
    }

    /// The parameters of two norms per layer and a final one.
    pub open spec fn norm_weights(self) -> int {
        (2 * self.n_layers + 1) * self.d_model
    }

    /// All the parameters.
    pub open spec fn weights(self) -> int {
        self.embedding_weights() + self.head_weights() + self.ssm_layers() * self.ssm_weights()
            + self.attn_layers() * self.attn_weights() + self.ffn_weights() + self.norm_weights()
    }

    /// The layers that are there have heads.
    pub open spec fn has_heads(self) -> bool {
        &&& self.ssm_layers() > 0 ==> self.head_dim > 0
        &&& self.attn_layers() > 0 ==> self.attn_heads > 0
    }

    /// The layers that are there have heads, and the parameters can be counted.
    pub open spec fn countable(self) -> bool {
        &&& self.has_heads()
        &&& self.weights() <= usize::MAX
        &&& self.ffn() <= usize::MAX
        &&& self.ssm_layers() > 0 ==> self.inner() <= usize::MAX && self.mamba_of().in_width()
            <= usize::MAX
        &&& self.attn_layers() > 0 ==> self.attn_kv_heads * self.attn_head() <= usize::MAX
        &&& 2 * self.n_layers + 1 <= usize::MAX
    }

    /// Parameters of one Mamba-3 block.
    fn ssm_params(&self) -> (r: usize)
        requires
            self.head_dim > 0,
            self.ssm_weights() <= usize::MAX,
            self.inner() <= usize::MAX,
            self.mamba_of().in_width() <= usize::MAX,
        ensures
            r == self.ssm_weights(),
    {
        proof {
            ssm_parts(*self);
        }
        let width = self.mamba().d_in_proj();
        let inner = self.d_inner();
        let heads = self.n_heads();
        let projections = math::times(self.d_model, width) + math::times(inner, self.d_model);
        let mimo = if self.mimo_rank > 1 {
            math::times4(3, heads, self.mimo_rank, self.head_dim)
        } else {
            0
        };
        let small = 2 * heads + 2 * self.state_rank + math::times4(
            2,
            heads,
            self.mimo_rank,
            self.state_rank,
        ) + self.head_dim;
        projections + mimo + small
    }

    /// Parameters of one grouped-query attention block.
    fn attn_params(&self) -> (r: usize)
        requires
            self.attn_heads > 0,
            self.attn_weights() <= usize::MAX,
            self.attn_kv_heads * self.attn_head() <= usize::MAX,
        ensures
            r == self.attn_weights(),
    {
        let d = self.d_model;
        let head = d / self.attn_heads;
        proof {
            let kv = self.attn_kv_heads * head;
            assert(2 * d * d >= 0) by (nonlinear_arith);
            assert(kv >= 0) by (nonlinear_arith)
                requires
                    kv == self.attn_kv_heads * head,
            ;
            assert(2 * d * kv >= 0) by (nonlinear_arith)
                requires
                    kv >= 0,
            ;
        }
        let kv = math::times(self.attn_kv_heads, head);
        math::times3(2, d, d) + math::times3(2, d, kv) + 2 * head
    }

    /// The analytic parameter budget, broken down by what it is spent on.
    pub fn budget(&self) -> (r: Budget)
        requires
            self.countable(),
        ensures
            r.embedding == self.embedding_weights(),
            r.head == self.head_weights(),
            r.ssm == self.ssm_layers() * self.ssm_weights(),
            r.attention == self.attn_layers() * self.attn_weights(),
            r.ffn == self.ffn_weights(),
            r.norms == self.norm_weights(),
            r.total == self.weights(),
    {
        proof {
            weight_parts(*self);
            assert(self.vocab_size * self.d_model >= 0) by (nonlinear_arith);
        }
        let d = self.d_model;
        let embedding = math::times(self.vocab_size, d);
        let head = if self.tied_embeddings {
            0
        } else {
            math::times(self.vocab_size, d)
        };
        let mut ssm: usize = 0;
        let mut attention: usize = 0;
        let mut layer: usize = 0;
        assert(0 * self.ssm_weights() == 0 && 0 * self.attn_weights() == 0);
        while layer < self.n_layers
            invariant
                layer <= self.n_layers,
                self.has_heads(),
                self.ssm_layers() > 0 ==> {
                    &&& self.ssm_weights() >= 0
                    &&& self.ssm_layers() * self.ssm_weights() <= usize::MAX
                    &&& self.inner() <= usize::MAX
                    &&& self.mamba_of().in_width() <= usize::MAX
                },
                self.attn_layers() > 0 ==> {
                    &&& self.attn_weights() >= 0
                    &&& self.attn_layers() * self.attn_weights() <= usize::MAX
                    &&& self.attn_kv_heads * self.attn_head() <= usize::MAX
                },
                ssm == self.layers(Mixer::Ssm, layer as nat) * self.ssm_weights(),
                attention == self.layers(Mixer::Attention, layer as nat) * self.attn_weights(),
            decreases self.n_layers - layer,
        {
            let mixer = self.mixer(layer);
            proof {
                layers_grow(*self, mixer, (layer + 1) as nat, self.n_layers as nat);
                let k = self.layers(mixer, layer as nat) as int;
                let w = if mixer == Mixer::Ssm {
                    self.ssm_weights()
                } else {
                    self.attn_weights()
                };
                let all = self.layers(mixer, self.n_layers as nat) as int;
                assert((k + 1) * w == k * w + w) by (nonlinear_arith);
                assert(w <= (k + 1) * w <= all * w) by (nonlinear_arith)
                    requires
                        0 <= k,
                        k + 1 <= all,
                        w >= 0,
                ;
            }
            match mixer {
                Mixer::Ssm => {
                    ssm = ssm + self.ssm_params();
                },
                Mixer::Attention => {
                    attention = attention + self.attn_params();
                },
            }
            layer = layer + 1;
        }
        let width = self.d_ff();
        let ffn = math::times4(self.n_layers, 3, d, width);
        let norms = math::times(2 * self.n_layers + 1, d);
        Budget {
            embedding,
            head,
            ssm,
            attention,
            ffn,
            norms,
            total: embedding + head + ssm + attention + ffn + norms,
        }
    }

    /// Twenty tokens for each parameter, the budget of a compute-efficient run.
    pub fn chinchilla_tokens(&self) -> (r: usize)
        requires
            self.countable(),
            20 * self.weights() <= usize::MAX,
        ensures
            r == 20 * self.weights(),
    {
        proof {
            weight_parts(*self);
        }
        20 * self.budget().total
    }

    /// Score pairs one attention layer materialises for a whole sequence: every
    /// query of a block against every key of the block, whatever the mask says.
    pub open spec fn pairs(self) -> int {
        match self.attn_window {
            Some(window) => if window < self.seq_len {
                block_pairs(self.seq_len as int, window as int, 0)
            } else {
                self.seq_len * self.seq_len
            },
            None => self.seq_len * self.seq_len,
        }
    }

    /// Score pairs one attention layer materialises for a whole sequence.
    ///
    /// A window wider than the sequence, or none at all, falls back to the dense
    /// square.
    pub fn attn_pairs(&self) -> (r: usize)
        requires
            self.pairs() <= usize::MAX,
            self.attn_window == Some(0usize) ==> self.seq_len == 0,
        ensures
            r == self.pairs(),
    {
        self.wide_pairs() as usize
    }

    /// The score pairs, in the wide integers, which always hold them.
    pub(crate) fn wide_pairs(&self) -> (r: u128)
        requires
            self.attn_window == Some(0usize) ==> self.seq_len == 0,
        ensures
            r == self.pairs(),
            self.pairs() <= self.seq_len * self.seq_len,
    {
        let seq = self.seq_len;
        let window = match self.attn_window {
            Some(window) => window,
            None => seq,
        };
        proof {
            math::product_bound(seq as int, seq as int, u64::MAX as int, u64::MAX as int);
            if window < seq {
                block_pairs_bound(seq as int, window as int, 0);
            }
        }
        if window >= seq {
            return math::wide_times(seq as u128, seq as u128);
        }
        let mut sum: u128 = 0;
        let mut start: usize = 0;
        let mut more = true;
        while more
            invariant
                seq == self.seq_len,
                0 < window < seq,
                more ==> start < seq,
                self.pairs() <= u128::MAX,
                self.pairs() == sum + if more {
                    block_pairs(seq as int, window as int, start as int)
                } else {
                    0
                },
            decreases (if more { seq - start } else { 0 }),
        {
            let end = if seq - start < window {
                seq
            } else {
                start + window
            };
            let first = if start + 1 < window {
                0
            } else {
                start + 1 - window
            };
            proof {
                block_pairs_positive(seq as int, window as int, start + window);
                assert((end - start) * (end - first) >= 0) by (nonlinear_arith)
                    requires
                        end >= start,
                        end >= first,
                ;
            }
            sum = sum + math::wide_times((end - start) as u128, (end - first) as u128);
            more = seq - start > window;
            if more {
                start = start + window;
            }
        }
        sum
    }
}

proof fn block_pairs_positive(seq: int, window: int, start: int)
    requires
        start >= 0,
    ensures
        block_pairs(seq, window, start) >= 0,
    decreases
            (if start < seq {
                seq - start
            } else {
                0
            }),
{
    if window > 0 && start < seq {
        block_pairs_positive(seq, window, start + window);
        let end = if seq - start < window {
            seq
        } else {
            start + window
        };
        let first = if start + 1 < window {
            0
        } else {
            start + 1 - window
        };
        assert((end - start) * (end - first) >= 0) by (nonlinear_arith)
            requires
                end >= start,
                end >= first,
        ;
    }
}

proof fn ssm_parts(m: Model)
    requires
        m.head_dim > 0,
    ensures
        m.inner() >= 0,
        m.heads() >= 0,
        m.mamba_of().in_width() >= 0,
        m.d_model * m.mamba_of().in_width() >= 0,
        m.inner() * m.d_model >= 0,
        3 * m.heads() * m.mimo_rank * m.head_dim >= 0,
        2 * m.heads() * m.mimo_rank * m.state_rank >= 0,
        m.ssm_weights() >= 0,
{
    mamba_parts(m.mamba_of());
    let width = m.mamba_of().in_width();
    let inner = m.inner();
    let heads = m.heads();
    assert(m.d_model * width >= 0) by (nonlinear_arith)
        requires
            width >= 0,
    ;
    assert(inner * m.d_model >= 0) by (nonlinear_arith)
        requires
            inner >= 0,
    ;
    assert(3 * heads * m.mimo_rank * m.head_dim >= 0) by (nonlinear_arith)
        requires
            heads >= 0,
    ;
    assert(2 * heads * m.mimo_rank * m.state_rank >= 0) by (nonlinear_arith)
        requires
            heads >= 0,
    ;
}

proof fn attn_parts(m: Model)
    requires
        m.attn_heads > 0,
    ensures
        m.attn_head() >= 0,
        m.attn_weights() >= 0,
{
    vstd::arithmetic::div_mod::lemma_div_pos_is_pos(m.d_model as int, m.attn_heads as int);
    let d = m.d_model as int;
    let kv = m.attn_kv_heads * m.attn_head();
    assert(kv >= 0) by (nonlinear_arith)
        requires
            kv == m.attn_kv_heads * m.attn_head(),
            m.attn_head() >= 0,
    ;
    assert(2 * d * d >= 0) by (nonlinear_arith);
    assert(2 * d * kv >= 0) by (nonlinear_arith)
        requires
            kv >= 0,
            d >= 0,
    ;
}

proof fn layers_grow(m: Model, mixer: Mixer, a: nat, b: nat)
    requires
        a <= b,
    ensures
        m.layers(mixer, a) <= m.layers(mixer, b),
    decreases b,
{
    if a < b {
        layers_grow(m, mixer, a, (b - 1) as nat);
    }
}

proof fn weight_parts(m: Model)
    requires
        m.has_heads(),
    ensures
        m.embedding_weights() >= 0,
        m.head_weights() >= 0,
        m.ssm_layers() > 0 ==> m.ssm_weights() >= 0,
        m.attn_layers() > 0 ==> m.attn_weights() >= 0,
        m.ssm_layers() * m.ssm_weights() >= 0,
        m.attn_layers() * m.attn_weights() >= 0,
        m.ffn() >= 0,
        m.ffn_weights() >= 0,
        m.norm_weights() >= 0,
        m.weights() >= 0,
{
    assert(m.vocab_size * m.d_model >= 0) by (nonlinear_arith);
    if m.ssm_layers() > 0 {
        ssm_parts(m);
        let (k, w) = (m.ssm_layers() as int, m.ssm_weights());
        assert(k * w >= 0) by (nonlinear_arith)
            requires
                k >= 0,
                w >= 0,
        ;
    } else {
        assert(0 * m.ssm_weights() == 0);
    }
    if m.attn_layers() > 0 {
        attn_parts(m);
        let (k, w) = (m.attn_layers() as int, m.attn_weights());
        assert(k * w >= 0) by (nonlinear_arith)
            requires
                k >= 0,
                w >= 0,
        ;
    } else {
        assert(0 * m.attn_weights() == 0);
    }
    math::quotient_up_covers(m.ffn_raw(), 64);
    let f = m.ffn();
    assert(m.n_layers * 3 * m.d_model * f >= 0) by (nonlinear_arith)
        requires
            f >= 0,
    ;
    assert((2 * m.n_layers + 1) * m.d_model >= 0) by (nonlinear_arith);
}

impl Model {
    /// What one SSM layer keeps for a token: the in-projection output, the six
    /// retained SSD leaves, the gated RMSNorm chain and the out-projection.
    pub open spec fn ssm_kept(self) -> int {
        self.mamba_of().in_width() + self.mimo_rank * self.heads() * self.head_dim + 2
            * self.mimo_rank * self.heads() * self.state_rank + 3 * self.heads() + 6 * self.inner()
            + self.d_model
    }

    /// What one attention layer keeps for a token: q, k, v and their rope and
    /// repeat copies, then the scores and the softmax over them.
    pub open spec fn attn_kept(self) -> int {
        6 * self.d_model + (2 * self.attn_heads * self.pairs()) / (self.seq_len as int)
    }

    /// What all feed-forward layers keep for a token: two norms, the residual,
    /// and the two inputs, silu and product of SwiGLU.
    pub open spec fn ffn_kept(self) -> int {
        self.n_layers * (4 * self.d_model + 4 * self.ffn())
    }

    /// What the loss keeps for a token: the logits and their log-softmax.
    pub open spec fn head_kept(self) -> int {
        2 * self.vocab_size + self.d_model
    }

    /// The bytes of `kept` numbers for each token of a micro-batch.
    pub open spec fn bytes(self, batch: int, kept: int) -> int {
        batch * self.seq_len * kept * 4
    }

    /// All that a micro-batch keeps, in bytes.
    pub open spec fn activation_bytes(self, batch: int) -> int {
        self.ssm_layers() * self.bytes(batch, self.ssm_kept()) + self.attn_layers() * self.bytes(
            batch,
            self.attn_kept(),
        ) + self.bytes(batch, self.ffn_kept()) + self.bytes(batch, self.head_kept())
    }

    /// The activations of one token can be counted.
    pub open spec fn measurable(self) -> bool {
        &&& self.head_dim > 0
        &&& self.seq_len > 0
        &&& self.attn_window != Some(0usize)
        &&& self.inner() <= usize::MAX
        &&& self.mamba_of().in_width() <= usize::MAX
        &&& self.ssm_kept() <= usize::MAX
        &&& self.pairs() <= usize::MAX
        &&& 2 * self.attn_heads * self.pairs() <= usize::MAX
        &&& self.attn_kept() <= usize::MAX
        &&& self.ffn() <= usize::MAX
        &&& 4 * self.d_model + 4 * self.ffn() <= usize::MAX
        &&& self.ffn_kept() <= usize::MAX
        &&& self.head_kept() <= usize::MAX
    }

    /// The activations of a micro-batch can be counted.
    pub open spec fn batch_measurable(self, batch: int) -> bool {
        &&& self.measurable()
        &&& self.ssm_layers() > 0 ==> self.bytes(batch, self.ssm_kept()) <= usize::MAX
        &&& self.attn_layers() > 0 ==> self.bytes(batch, self.attn_kept()) <= usize::MAX
        &&& self.bytes(batch, self.ffn_kept()) <= usize::MAX
        &&& self.bytes(batch, self.head_kept()) <= usize::MAX
    }

    fn kept_bytes(&self, batch: usize, kept: usize) -> (r: usize)
        requires
            self.bytes(batch as int, kept as int) <= usize::MAX,
        ensures
            r == self.bytes(batch as int, kept as int),
    {
        math::times4(batch, self.seq_len, kept, 4)
    }

    /// Activation bytes one micro-batch holds until its backward, in fp32.
    ///
    /// An estimate, not a measurement. It counts what is demonstrably kept: the
    /// SSD leaves rather than the intra-chunk tensors that are recomputed, the
    /// in-projection and gated out-norm around them, the attention scores and
    /// their softmax, the SwiGLU intermediates, and the two vocabulary-wide
    /// tensors of the loss.
    pub fn activations(&self, batch: usize) -> (r: Activations)
        requires
            self.batch_measurable(batch as int),
        ensures
            r.ssm == self.ssm_layers() * self.bytes(batch as int, self.ssm_kept()),
            r.attention == self.attn_layers() * self.bytes(batch as int, self.attn_kept()),
            r.ffn == self.bytes(batch as int, self.ffn_kept()),
            r.head == self.bytes(batch as int, self.head_kept()),
            r.total == self.activation_bytes(batch as int),
    {
        proof {
            kept_parts(*self);
        }
        let heads = self.n_heads();
        let inner = self.d_inner();
        let d = self.d_model;
        let width = self.mamba().d_in_proj();
        let ssm_layer = width + math::times3(self.mimo_rank, heads, self.head_dim) + math::times4(
            2,
            self.mimo_rank,
            heads,
            self.state_rank,
        ) + 3 * heads + 6 * inner + d;
        let pairs = self.attn_pairs();
        let attn_layer = 6 * d + math::times3(2, self.attn_heads, pairs) / self.seq_len;
        let block = 4 * d + 4 * self.d_ff();
        let mut ssm: u128 = 0;
        let mut attention: u128 = 0;
        let mut layer: usize = 0;
        let ghost per_ssm = self.bytes(batch as int, self.ssm_kept());
        let ghost per_attn = self.bytes(batch as int, self.attn_kept());
        proof {
            assert(0 * per_ssm == 0 && 0 * per_attn == 0);
            bytes_positive(*self, batch as int, self.ssm_kept());
            bytes_positive(*self, batch as int, self.attn_kept());
        }
        while layer < self.n_layers
            invariant
                layer <= self.n_layers,
                ssm_layer == self.ssm_kept(),
                attn_layer == self.attn_kept(),
                per_ssm == self.bytes(batch as int, self.ssm_kept()),
                per_attn == self.bytes(batch as int, self.attn_kept()),
                0 <= per_ssm,
                0 <= per_attn,
                self.batch_measurable(batch as int),
                ssm == self.layers(Mixer::Ssm, layer as nat) * per_ssm,
                attention == self.layers(Mixer::Attention, layer as nat) * per_attn,
                ssm + attention <= layer * usize::MAX,
            decreases self.n_layers - layer,
        {
            let mixer = self.mixer(layer);
            proof {
                layers_grow(*self, mixer, (layer + 1) as nat, self.n_layers as nat);
                let k = self.layers(mixer, layer as nat) as int;
                let w = if mixer == Mixer::Ssm {
                    per_ssm
                } else {
                    per_attn
                };
                assert((k + 1) * w == k * w + w) by (nonlinear_arith);
                assert((layer + 1) * usize::MAX == layer * usize::MAX + usize::MAX)
                    by (nonlinear_arith);
                assert((layer + 1) * usize::MAX <= usize::MAX * usize::MAX) by (nonlinear_arith)
                    requires
                        0 <= layer + 1 <= usize::MAX,
                ;
                wide_square();
            }
            match mixer {
                Mixer::Ssm => {
                    ssm = ssm + self.kept_bytes(batch, ssm_layer) as u128;
                },
                Mixer::Attention => {
                    attention = attention + self.kept_bytes(batch, attn_layer) as u128;
                },
            }
            layer = layer + 1;
        }
        let head = self.kept_bytes(batch, 2 * self.vocab_size + d) as u128;
        let ffn = self.kept_bytes(batch, math::times(self.n_layers, block)) as u128;
        proof {
            assert(layer * usize::MAX <= usize::MAX * usize::MAX) by (nonlinear_arith)
                requires
                    0 <= layer <= usize::MAX,
            ;
            wide_square();
        }
        Activations { ssm, attention, ffn, head, total: ssm + attention + ffn + head }
    }

    /// The largest micro-batch whose states and activations fit.
    pub open spec fn micro_batches(self, bytes: int, per_param: int) -> int {
        let states = self.weights() * per_param;
        let one = self.activation_bytes(1);
        if states + one > bytes {
            0
        } else if one == 0 {
            if bytes > states {
                usize::MAX as int
            } else {
                0
            }
        } else {
            (bytes - states) / one
        }
    }

    /// The largest micro-batch whose states and activations fit `bytes`.
    ///
    /// `per_param` is the optimizer's cost per parameter: 12 B for Muon on the
    /// hidden matrices, 16 B for pure fp32 AdamW. Zero means nothing fits, which
    /// is the honest answer when the states alone are over budget.
    pub fn micro_batch_within(&self, bytes: u64, per_param: u64) -> (r: usize)
        requires
            self.countable(),
            self.batch_measurable(1),
            self.micro_batches(bytes as int, per_param as int) <= usize::MAX,
        ensures
            r == self.micro_batches(bytes as int, per_param as int),
    {
        let total = self.budget().total as u128;
        proof {
            assert(total * per_param <= u64::MAX * u64::MAX) by (nonlinear_arith)
                requires
                    0 <= total <= u64::MAX,
                    0 <= per_param <= u64::MAX,
            ;
            assert(total * per_param >= 0) by (nonlinear_arith);
        }
        let states = total * per_param as u128;
        let one = self.activations(1).total;
        let bytes = bytes as u128;
        if states > bytes || one > bytes - states {
            0
        } else if one == 0 {
            if bytes > states {
                usize::MAX
            } else {
                0
            }
        } else {
            ((bytes - states) / one) as usize
        }
    }

    /// The forward FLOPs of one SSM layer: the projections, and a recurrence
    /// that reads and writes the whole state once per token per channel.
    pub open spec fn ssm_flops(self) -> int {
        2 * self.d_model * (self.mamba_of().in_width() + self.inner()) + 4 * (self.heads()
            * self.head_dim * self.state_rank) * self.mimo_rank
    }

    /// How many keys a query of an attention layer sees.
    pub open spec fn span(self) -> int {
        match self.attn_window {
            Some(window) => if window < self.seq_len {
                window as int
            } else {
                self.seq_len as int
            },
            None => self.seq_len as int,
        }
    }

    /// The forward FLOPs of one attention layer.
    pub open spec fn attn_flops(self) -> int {
        2 * self.d_model * (2 * self.d_model + 2 * (self.attn_kv_heads * self.attn_head())) + 4
            * self.span() * self.d_model
    }

    /// The forward FLOPs of one feed-forward layer.
    pub open spec fn ffn_flops(self) -> int {
        6 * self.d_model * self.ffn()
    }

    /// The forward FLOPs of a token.
    pub open spec fn flops(self) -> int {
        self.ssm_layers() * self.ssm_flops() + self.attn_layers() * self.attn_flops()
            + self.n_layers * self.ffn_flops() + 2 * self.d_model * self.vocab_size
    }
}

proof fn wide_square()
    ensures
        usize::MAX * usize::MAX + 2 * usize::MAX <= u128::MAX,
{
    let m = usize::MAX as int;
    assert(m * m + 2 * m <= u64::MAX * u64::MAX + 2 * u64::MAX) by (nonlinear_arith)
        requires
            0 <= m <= u64::MAX,
    ;
}

proof fn bytes_positive(m: Model, batch: int, kept: int)
    requires
        batch >= 0,
        kept >= 0,
    ensures
        m.bytes(batch, kept) >= 0,
{
    let seq = m.seq_len as int;
    assert(batch * seq * kept * 4 >= 0) by (nonlinear_arith)
        requires
            batch >= 0,
            kept >= 0,
            seq >= 0,
    ;
}

proof fn pairs_positive(m: Model)
    ensures
        m.pairs() >= 0,
{
    assert(m.seq_len * m.seq_len >= 0) by (nonlinear_arith);
    if let Some(window) = m.attn_window {
        block_pairs_positive(m.seq_len as int, window as int, 0);
    }
}

proof fn kept_parts(m: Model)
    requires
        m.head_dim > 0,
        m.seq_len > 0,
    ensures
        m.inner() >= 0,
        m.heads() >= 0,
        m.mamba_of().in_width() >= 0,
        m.mimo_rank * m.heads() * m.head_dim >= 0,
        2 * m.mimo_rank * m.heads() * m.state_rank >= 0,
        m.ssm_kept() >= 0,
        2 * m.attn_heads * m.pairs() >= 0,
        (2 * m.attn_heads * m.pairs()) / (m.seq_len as int) >= 0,
        m.attn_kept() >= 0,
        m.ffn() >= 0,
        m.ffn_kept() >= 0,
{
    ssm_parts(m);
    pairs_positive(m);
    let heads = m.heads();
    let pairs = m.pairs();
    assert(m.mimo_rank * heads * m.head_dim >= 0) by (nonlinear_arith)
        requires
            heads >= 0,
    ;
    assert(2 * m.mimo_rank * heads * m.state_rank >= 0) by (nonlinear_arith)
        requires
            heads >= 0,
    ;
    assert(2 * m.attn_heads * pairs >= 0) by (nonlinear_arith)
        requires
            pairs >= 0,
    ;
    vstd::arithmetic::div_mod::lemma_div_pos_is_pos(2 * m.attn_heads * pairs, m.seq_len as int);
    math::quotient_up_covers(m.ffn_raw(), 64);
    let block = 4 * m.d_model + 4 * m.ffn();
    assert(m.n_layers * block >= 0) by (nonlinear_arith)
        requires
            block >= 0,
    ;
}

impl Model {
    /// The FLOPs of a token can be counted.
    pub open spec fn flops_countable(self) -> bool {
        &&& self.has_heads()
        &&& self.flops() <= u128::MAX
        &&& self.n_layers > 0 ==> self.ffn() <= usize::MAX
        &&& self.ssm_layers() > 0 ==> {
            &&& self.inner() <= usize::MAX
            &&& self.mamba_of().in_width() + self.inner() <= usize::MAX
            &&& self.heads() * self.head_dim * self.state_rank <= usize::MAX
        }
    }

    fn ssm_layer_flops(&self) -> (r: u128)
        requires
            self.head_dim > 0,
            self.inner() <= usize::MAX,
            self.mamba_of().in_width() + self.inner() <= usize::MAX,
            self.heads() * self.head_dim * self.state_rank <= usize::MAX,
            self.ssm_flops() <= u128::MAX,
        ensures
            r == self.ssm_flops(),
    {
        proof {
            ssm_parts(*self);
            let (d, w) = (self.d_model as int, self.mamba_of().in_width() + self.inner());
            assert(2 * d * w >= 0) by (nonlinear_arith)
                requires
                    d >= 0,
                    w >= 0,
            ;
            let (h, p, n) = (self.heads(), self.head_dim as int, self.state_rank as int);
            assert(h * p * n >= 0) by (nonlinear_arith)
                requires
                    h >= 0,
                    p >= 0,
                    n >= 0,
            ;
            let (t, r) = (4 * (h * p * n), self.mimo_rank as int);
            assert(t * r >= 0) by (nonlinear_arith)
                requires
                    t >= 0,
                    r >= 0,
            ;
        }
        let width = self.mamba().d_in_proj() + self.d_inner();
        let state = math::times3(self.n_heads(), self.head_dim, self.state_rank);
        math::wide_times(2 * self.d_model as u128, width as u128) + math::wide_times(
            4 * state as u128,
            self.mimo_rank as u128,
        )
    }

    fn attn_layer_flops(&self) -> (r: u128)
        requires
            self.attn_heads > 0,
            self.attn_flops() <= u128::MAX,
        ensures
            r == self.attn_flops(),
    {
        let head = self.d_model / self.attn_heads;
        let span = match self.attn_window {
            Some(window) => if window < self.seq_len {
                window
            } else {
                self.seq_len
            },
            None => self.seq_len,
        };
        let d = self.d_model as u128;
        if d == 0 {
            proof {
                let kv = self.attn_kv_heads * self.attn_head();
                assert(2 * 0 * (2 * 0 + 2 * kv) == 0) by (nonlinear_arith);
                assert(4 * self.span() * 0 == 0) by (nonlinear_arith);
            }
            return 0;
        }
        proof {
            let kv = self.attn_kv_heads * self.attn_head();
            let s = self.span();
            assert(kv >= 0) by (nonlinear_arith)
                requires
                    kv == self.attn_kv_heads * head,
            ;
            assert(2 * kv <= 2 * d * (2 * d + 2 * kv)) by (nonlinear_arith)
                requires
                    d >= 1,
                    kv >= 0,
            ;
            assert(2 * d + 2 * kv <= 2 * d * (2 * d + 2 * kv)) by (nonlinear_arith)
                requires
                    d >= 1,
                    kv >= 0,
            ;
            assert(4 * s * d >= 0) by (nonlinear_arith)
                requires
                    s >= 0,
                    d >= 0,
            ;
        }
        let kv = math::wide_times(self.attn_kv_heads as u128, head as u128);
        math::wide_times(2 * d, 2 * d + 2 * kv) + math::wide_times(4 * span as u128, d)
    }

    /// Forward FLOPs per token, counting a multiply-add as two.
    ///
    /// Backward is taken as twice forward, the usual convention, so a training
    /// step costs three times this. Attention is quadratic inside its window
    /// only, and the unembedding is a full vocabulary GEMM at every position.
    pub fn flops_per_token(&self) -> (r: u128)
        requires
            self.flops_countable(),
        ensures
            r == self.flops(),
    {
        proof {
            flops_parts(*self);
        }
        let d = self.d_model as u128;
        let mut flops: u128 = 0;
        let mut layer: usize = 0;
        assert(0 * self.ssm_flops() == 0 && 0 * self.attn_flops() == 0 && 0 * self.ffn_flops()
            == 0);
        while layer < self.n_layers
            invariant
                layer <= self.n_layers,
                self.flops_countable(),
                d == self.d_model,
                self.ssm_layers() > 0 ==> self.ssm_flops() >= 0,
                self.attn_layers() > 0 ==> self.attn_flops() >= 0,
                self.ffn_flops() >= 0,
                2 * self.d_model * self.vocab_size >= 0,
                flops == self.layers(Mixer::Ssm, layer as nat) * self.ssm_flops() + self.layers(
                    Mixer::Attention,
                    layer as nat,
                ) * self.attn_flops() + layer * self.ffn_flops(),
            decreases self.n_layers - layer,
        {
            let mixer = self.mixer(layer);
            proof {
                flops_grow(*self, (layer + 1) as nat);
                let (a, b) = (self.ssm_flops(), self.attn_flops());
                let k = self.layers(Mixer::Ssm, layer as nat) as int;
                let l = self.layers(Mixer::Attention, layer as nat) as int;
                let f = self.ffn_flops();
                assert((k + 1) * a == k * a + a) by (nonlinear_arith);
                assert((l + 1) * b == l * b + b) by (nonlinear_arith);
                assert((layer + 1) * f == layer * f + f) by (nonlinear_arith);
                layers_grow(*self, mixer, (layer + 1) as nat, self.n_layers as nat);
            }
            let mix = match mixer {
                Mixer::Ssm => self.ssm_layer_flops(),
                Mixer::Attention => self.attn_layer_flops(),
            };
            flops = flops + mix + math::wide_times(6 * d, self.d_ff() as u128);
            layer = layer + 1;
        }
        flops + math::wide_times(2 * d, self.vocab_size as u128)
    }
}

proof fn flops_parts(m: Model)
    requires
        m.has_heads(),
    ensures
        m.ssm_layers() > 0 ==> m.ssm_flops() >= 0,
        m.attn_layers() > 0 ==> m.attn_flops() >= 0,
        m.ffn_flops() >= 0,
        2 * m.d_model * m.vocab_size >= 0,
{
    if m.ssm_layers() > 0 {
        ssm_parts(m);
        let (d, w) = (m.d_model as int, m.mamba_of().in_width() + m.inner());
        assert(2 * d * w >= 0) by (nonlinear_arith)
            requires
                d >= 0,
                w >= 0,
        ;
        let (h, p, n, r) = (
            m.heads(),
            m.head_dim as int,
            m.state_rank as int,
            m.mimo_rank as int,
        );
        assert(4 * (h * p * n) * r >= 0) by (nonlinear_arith)
            requires
                h >= 0,
                p >= 0,
                n >= 0,
                r >= 0,
        ;
    }
    if m.attn_layers() > 0 {
        attn_parts(m);
        let (d, k, h, s) = (m.d_model as int, m.attn_kv_heads as int, m.attn_head(), m.span());
        assert(2 * d * (2 * d + 2 * (k * h)) >= 0) by (nonlinear_arith)
            requires
                d >= 0,
                k >= 0,
                h >= 0,
        ;
        assert(4 * s * d >= 0) by (nonlinear_arith)
            requires
                s >= 0,
                d >= 0,
        ;
    }
    math::quotient_up_covers(m.ffn_raw(), 64);
    let (d, f) = (m.d_model as int, m.ffn());
    assert(6 * d * f >= 0) by (nonlinear_arith)
        requires
            d >= 0,
            f >= 0,
    ;
    assert(2 * m.d_model * m.vocab_size >= 0) by (nonlinear_arith);
}

proof fn flops_grow(m: Model, n: nat)
    requires
        m.has_heads(),
        n <= m.n_layers,
    ensures
        m.layers(Mixer::Ssm, n) * m.ssm_flops() + m.layers(Mixer::Attention, n) * m.attn_flops() + n
            * m.ffn_flops() <= m.ssm_layers() * m.ssm_flops() + m.attn_layers() * m.attn_flops()
            + m.n_layers * m.ffn_flops(),
        0 <= m.layers(Mixer::Ssm, n) * m.ssm_flops(),
        0 <= m.layers(Mixer::Attention, n) * m.attn_flops(),
{
    flops_parts(m);
    layers_grow(m, Mixer::Ssm, n, m.n_layers as nat);
    layers_grow(m, Mixer::Attention, n, m.n_layers as nat);
    let (k, l) = (m.layers(Mixer::Ssm, n) as int, m.layers(Mixer::Attention, n) as int);
    let (kk, ll) = (m.ssm_layers() as int, m.attn_layers() as int);
    let (a, b, f) = (m.ssm_flops(), m.attn_flops(), m.ffn_flops());
    assert(0 <= k * a <= kk * a) by (nonlinear_arith)
        requires
            0 <= k <= kk,
            kk > 0 ==> a >= 0,
    ;
    assert(0 <= l * b <= ll * b) by (nonlinear_arith)
        requires
            0 <= l <= ll,
            ll > 0 ==> b >= 0,
    ;
    assert(n * f <= m.n_layers * f) by (nonlinear_arith)
        requires
            n <= m.n_layers,
            f >= 0,
    ;
}

/// Attention lands on the last layer of each period: `n` layers have `n /
/// period` of it, and the rest are SSMs. With a period of one the first layer is
/// an SSM all the same.
pub proof fn attention_shares_the_stack(m: Model, n: nat)
    ensures
        m.layers(Mixer::Ssm, n) + m.layers(Mixer::Attention, n) == n,
        m.layers(Mixer::Attention, n) == match m.attn_period {
            Some(period) => if period == 1 && n > 0 {
                n - 1
            } else if period > 0 {
                n as int / (period as int)
            } else {
                0
            },
            None => 0,
        },
    decreases n,
{
    if n > 0 {
        attention_shares_the_stack(m, (n - 1) as nat);
        if let Some(period) = m.attn_period {
            if period > 0 {
                next_quotient(n - 1, period as int);
                if n == 1 && period > 1 {
                    vstd::arithmetic::div_mod::lemma_small_mod(1, period as nat);
                }
            }
        }
    } else if let Some(period) = m.attn_period {
        if period > 0 {
            vstd::arithmetic::div_mod::lemma_div_basics(period as int);
        }
    }
}

proof fn next_quotient(a: int, d: int)
    requires
        d > 0,
        a >= 0,
    ensures
        (a + 1) / d == if (a + 1) % d == 0 {
            a / d + 1
        } else {
            a / d
        },
{
    let (q, r) = (a / d, a % d);
    vstd::arithmetic::div_mod::lemma_fundamental_div_mod(a, d);
    vstd::arithmetic::div_mod::lemma_mod_bound(a, d);
    assert(d * q == q * d) by (nonlinear_arith);
    if r == d - 1 {
        assert((q + 1) * d == q * d + d) by (nonlinear_arith);
        vstd::arithmetic::div_mod::lemma_fundamental_div_mod_converse(a + 1, d, q + 1, 0);
    } else {
        vstd::arithmetic::div_mod::lemma_fundamental_div_mod_converse(a + 1, d, q, r + 1);
    }
}

/// The layer that reads raw embeddings is always an SSM.
pub proof fn the_first_layer_is_an_ssm(m: Model)
    ensures
        m.mixer_of(0) == Mixer::Ssm,
{
}

/// Tying the head to the embedding saves one vocabulary matrix, and nothing
/// else.
pub proof fn tying_saves_the_vocabulary(m: Model)
    ensures
        (Model { tied_embeddings: false, ..m }).weights() - (Model {
            tied_embeddings: true,
            ..m
        }).weights() == m.vocab_size * m.d_model,
{
    let a = Model { tied_embeddings: false, ..m };
    let b = Model { tied_embeddings: true, ..m };
    same_layers(a, b, Mixer::Ssm, m.n_layers as nat);
    same_layers(a, b, Mixer::Attention, m.n_layers as nat);
}

proof fn same_layers(a: Model, b: Model, mixer: Mixer, n: nat)
    requires
        a.attn_period == b.attn_period,
    ensures
        a.layers(mixer, n) == b.layers(mixer, n),
    decreases n,
{
    if n > 0 {
        same_layers(a, b, mixer, (n - 1) as nat);
    }
}

/// No two chunk lengths suit a scan.
pub proof fn one_chunk_suits_a_scan(state_rank: nat, head_dim: nat, a: nat, b: nat)
    requires
        suits_scan(state_rank, head_dim, a),
        suits_scan(state_rank, head_dim, b),
    ensures
        a == b,
{
    chunk_is_least(state_rank * head_dim, a, b);
    chunk_is_least(state_rank * head_dim, b, a);
}

proof fn chunk_is_least(product: nat, a: nat, b: nat)
    requires
        a % 32 == 0,
        b % 32 == 0,
        a * a >= product,
        b >= 32 ==> (b - 32) * (b - 32) < product,
    ensures
        a >= b,
{
    if a < b {
        assert(a * a <= (b - 32) * (b - 32)) by (nonlinear_arith)
            requires
                0 <= a <= b - 32,
        ;
    }
}

/// The default chunk length pads nothing: it divides the sequence, and no
/// divisor of the sequence between it and the length that suits the scan does.
pub proof fn the_default_chunk_divides_the_sequence(m: Model, chunk: usize, optimal: nat)
    requires
        m.ssd_chunk is None,
        m.is_chunk_len(chunk),
        suits_scan(m.state_rank as nat, m.head_dim as nat, optimal),
        optimal > 0,
        m.seq_len > 0,
    ensures
        1 <= chunk <= optimal,
        m.seq_len % chunk == 0,
        forall|d: nat| chunk < d <= optimal && d <= m.seq_len ==> #[trigger] (m.seq_len as nat % d) != 0,
{
    let other = choose|o: nat| #[trigger]
        suits_scan(m.state_rank as nat, m.head_dim as nat, o) && chunk == {
            let bound = if o < m.seq_len {
                o
            } else {
                m.seq_len as nat
            };
            if bound == 0 {
                o
            } else {
                largest_divisor(m.seq_len as nat, bound)
            }
        };
    one_chunk_suits_a_scan(m.state_rank as nat, m.head_dim as nat, other, optimal);
    let bound = if optimal < m.seq_len {
        optimal
    } else {
        m.seq_len as nat
    };
    largest_divisor_is(m.seq_len as nat, bound);
}

/// A window narrower than the sequence scores fewer pairs than none.
pub proof fn a_window_scores_fewer_pairs(m: Model, window: usize)
    requires
        0 < window < m.seq_len,
    ensures
        (Model { attn_window: Some(window), ..m }).pairs() < (Model {
            attn_window: None,
            ..m
        }).pairs(),
{
    let (s, w) = (m.seq_len as int, window as int);
    block_pairs_bound(s, w, 0);
    // The first block alone falls short: its queries see `w` keys, not `s`.
    block_pairs_bound(s, w, w);
    assert(s * s == w * s + (s - w) * s) by (nonlinear_arith);
    assert(w * w < w * s) by (nonlinear_arith)
        requires
            0 < w < s,
    ;
}

proof fn block_pairs_bound(s: int, w: int, start: int)
    requires
        0 < w < s,
        0 <= start,
    ensures
        start <= s ==> block_pairs(s, w, start) <= (s - start) * s,
        start > s ==> block_pairs(s, w, start) == 0,
    decreases
            (if start < s {
                s - start
            } else {
                0
            }),
{
    if start < s {
        block_pairs_bound(s, w, start + w);
        let end = if s - start < w {
            s
        } else {
            start + w
        };
        let first = if start + 1 < w {
            0
        } else {
            start + 1 - w
        };
        assert((end - start) * (end - first) <= (end - start) * s) by (nonlinear_arith)
            requires
                end >= start,
                end - first <= s,
        ;
        assert((end - start) * s + (s - end) * s == (s - start) * s) by (nonlinear_arith);
    } else if start == s {
        assert((s - start) * s == 0) by (nonlinear_arith)
            requires
                start == s,
        ;
    }
}

/// Activations grow in proportion to the micro-batch.
pub proof fn activations_scale_with_the_batch(m: Model, batch: int)
    ensures
        m.activation_bytes(batch) == batch * m.activation_bytes(1),
{
    let (k, l) = (m.ssm_layers() as int, m.attn_layers() as int);
    let (a, b, c, d) = (m.ssm_kept(), m.attn_kept(), m.ffn_kept(), m.head_kept());
    bytes_scale(m, batch, a);
    bytes_scale(m, batch, b);
    bytes_scale(m, batch, c);
    bytes_scale(m, batch, d);
    let (a1, b1, c1, d1) = (m.bytes(1, a), m.bytes(1, b), m.bytes(1, c), m.bytes(1, d));
    assert(k * (batch * a1) == batch * (k * a1)) by (nonlinear_arith);
    assert(l * (batch * b1) == batch * (l * b1)) by (nonlinear_arith);
    let (x, y) = (k * a1, l * b1);
    assert(batch * x + batch * y + batch * c1 + batch * d1 == batch * (x + y + c1 + d1))
        by (nonlinear_arith);
}

proof fn bytes_scale(m: Model, batch: int, kept: int)
    ensures
        m.bytes(batch, kept) == batch * m.bytes(1, kept),
{
    let seq = m.seq_len as int;
    assert(batch * seq * kept * 4 == batch * (1 * seq * kept * 4)) by (nonlinear_arith);
}

/// The estimate is the largest that fits: a micro-batch fits beside the states
/// if and only if it is no larger.
pub proof fn the_micro_batch_is_the_largest(m: Model, bytes: int, per_param: int, batch: int)
    requires
        m.activation_bytes(1) > 0,
        batch >= 1,
    ensures
        m.weights() * per_param + m.activation_bytes(batch) <= bytes <==> batch <= m.micro_batches(
            bytes,
            per_param,
        ),
{
    activations_scale_with_the_batch(m, batch);
    let one = m.activation_bytes(1);
    let free = bytes - m.weights() * per_param;
    assert(batch * one >= one) by (nonlinear_arith)
        requires
            batch >= 1,
            one > 0,
    ;
    if free >= one {
        let q = free / one;
        vstd::arithmetic::div_mod::lemma_fundamental_div_mod(free, one);
        vstd::arithmetic::div_mod::lemma_mod_bound(free, one);
        assert(one * q == q * one) by (nonlinear_arith);
        if batch <= q {
            assert(batch * one <= q * one) by (nonlinear_arith)
                requires
                    batch <= q,
                    one > 0,
            ;
        } else {
            assert(batch * one >= q * one + one) by (nonlinear_arith)
                requires
                    batch >= q + 1,
                    one > 0,
            ;
        }
    }
}

/// A model that can be built splits evenly: its width into heads, its heads
/// into groups, and, where it has attention, its attention width into heads and
/// those into key and value heads.
pub proof fn valid_models_split_evenly(m: Model)
    requires
        m.mistake() is None,
        m.head_dim > 0,
        m.n_groups > 0,
    ensures
        m.heads() * m.head_dim == m.inner(),
        m.heads() % (m.n_groups as int) == 0,
        m.state_rank % 2 == 0,
        m.mimo_rank >= 1,
        m.attn_period is Some && m.attn_heads > 0 ==> m.attn_head() * m.attn_heads == m.d_model,
{
    vstd::arithmetic::div_mod::lemma_fundamental_div_mod(m.inner(), m.head_dim as int);
    let (h, p) = (m.heads(), m.head_dim as int);
    assert(h * p == p * h) by (nonlinear_arith);
    if m.attn_heads > 0 {
        vstd::arithmetic::div_mod::lemma_fundamental_div_mod(
            m.d_model as int,
            m.attn_heads as int,
        );
        let (q, a) = (m.attn_head(), m.attn_heads as int);
        assert(q * a == a * q) by (nonlinear_arith);
    }
}

} // verus!
