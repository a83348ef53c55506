//! Which models can be counted: whether the machine's integers hold every number
//! that is asked of them.

use vstd::prelude::*;

use crate::config::{attention_shares_the_stack, Mixer, Model, Rope};
use crate::decimal;
use crate::math;

verus! {

/// A natural number that is known as far as the wide integers reach.
struct Count {
    known: Option<u128>,
    exact: Ghost<int>,
}

impl Count {
    spec fn well_formed(self) -> bool {
        &&& self.exact@ >= 0
        &&& self.known == if self.exact@ <= u128::MAX {
            Some(self.exact@ as u128)
        } else {
            None
        }
    }

    fn of(n: usize) -> (r: Self)
        ensures
            r.well_formed(),
            r.exact@ == n,
    {
        Count { known: Some(n as u128), exact: Ghost(n as int) }
    }

    fn wide(n: u128) -> (r: Self)
        ensures
            r.well_formed(),
            r.exact@ == n,
    {
        Count { known: Some(n), exact: Ghost(n as int) }
    }

    fn plus(&self, other: &Self) -> (r: Self)
        requires
            self.well_formed(),
            other.well_formed(),
        ensures
            r.well_formed(),
            r.exact@ == self.exact@ + other.exact@,
    {
        let known = match (self.known, other.known) {
            (Some(a), Some(b)) => a.checked_add(b),
            _ => None,
        };
        Count { known, exact: Ghost(self.exact@ + other.exact@) }
    }

    fn times(&self, other: &Self) -> (r: Self)
        requires
            self.well_formed(),
            other.well_formed(),
        ensures
            r.well_formed(),
            r.exact@ == self.exact@ * other.exact@,
    {
        let ghost (a, b) = (self.exact@, other.exact@);
        proof {
            assert(a * b >= 0) by (nonlinear_arith)
                requires
                    a >= 0,
                    b >= 0,
            ;
            assert(a == 0 || b == 0 ==> a * b == 0) by (nonlinear_arith);
            assert(a >= 1 && b >= 1 ==> a * b >= a && a * b >= b) by (nonlinear_arith);
        }
        let known = match (self.known, other.known) {
            (Some(a), Some(b)) => a.checked_mul(b),
            (Some(0), None) => Some(0),
            (None, Some(0)) => Some(0),
            _ => None,
        };
        Count { known, exact: Ghost(self.exact@ * other.exact@) }
    }

    fn scaled(&self, n: usize) -> (r: Self)
        requires
            self.well_formed(),
        ensures
            r.well_formed(),
            r.exact@ == n * self.exact@,
    {
        let r = Count::of(n).times(self);
        r
    }

    /// Whether addresses hold the number.
    fn addressable(&self) -> (r: bool)
        requires
            self.well_formed(),
        ensures
            r == (self.exact@ <= usize::MAX),
    {
        match self.known {
            Some(n) => n <= usize::MAX as u128,
            None => false,
        }
    }
}

/// What the SSM layers are made of, counted.
struct Blocks {
    inner: Count,
    heads: Count,
    width: Count,
}

impl Blocks {
    spec fn are(self, m: Model) -> bool {
        &&& self.inner.well_formed()
        &&& self.heads.well_formed()
        &&& self.width.well_formed()
        &&& self.inner.exact@ == m.inner()
        &&& self.heads.exact@ == m.heads()
        &&& self.width.exact@ == m.mamba_of().in_width()
    }
}

impl Model {
    fn layer_counts(&self) -> (r: (usize, usize))
        ensures
            r.0 == self.ssm_layers(),
            r.1 == self.attn_layers(),
            r.0 + r.1 == self.n_layers,
    {
        let n = self.n_layers;
        proof {
            attention_shares_the_stack(*self, n as nat);
            if let Some(period) = self.attn_period {
                if period > 0 {
                    vstd::arithmetic::div_mod::lemma_div_nonincreasing(n as int, period as int);
                }
            }
        }
        let attention = match self.attn_period {
            Some(period) => if period == 1 && n > 0 {
                n - 1
            } else if period > 0 {
                n / period
            } else {
                0
            },
            None => 0,
        };
        (n - attention, attention)
    }

    fn ffn_count(&self) -> (r: Count)
        ensures
            r.well_formed(),
            r.exact@ == self.ffn(),
    {
        let ghost raw = self.ffn_raw();
        proof {
            math::quotient_up_covers(raw, 64);
        }
        match decimal::scale_within(self.d_model as u64, self.ffn_mult) {
            Some(n) => {
                if n > 0xFFFF_FFFF_FFFF_FFFF_FFFF_FFFF_FFFF_FFC0 {
                    proof {
                        let q = math::quotient_up(raw, 64);
                        assert(q * 64 > 0xFFFF_FFFF_FFFF_FFFF_FFFF_FFFF_FFFF_FFC0);
                        assert((q * 64) % 64 == 0) by (nonlinear_arith);
                    }
                    return Count { known: None, exact: Ghost(self.ffn()) };
                }
                let q = (n + 63) / 64;
                Count::wide(q * 64)
            },
            None => Count { known: None, exact: Ghost(self.ffn()) },
        }
    }

    fn blocks(&self) -> (r: Blocks)
        requires
            self.head_dim > 0,
        ensures
            r.are(*self),
    {
        proof {
            math::product_bound(
                self.expand as int,
                self.d_model as int,
                u64::MAX as int,
                u64::MAX as int,
            );
            vstd::arithmetic::div_mod::lemma_div_pos_is_pos(self.inner(), self.head_dim as int);
        }
        let wide = math::wide_times(self.expand as u128, self.d_model as u128);
        let inner = Count::wide(wide);
        let heads = Count::wide(wide / self.head_dim as u128);
        let angles = match self.rope_fraction {
            Rope::Off => 0,
            Rope::Half => self.state_rank / 4,
            Rope::All => self.state_rank / 2,
        };
        let channels = Count::of(self.n_groups).scaled(2).times(&Count::of(self.state_rank)).times(
            &Count::of(self.mimo_rank),
        );
        let width = inner.scaled(2).plus(&channels).plus(&heads.scaled(3)).plus(&Count::of(angles));
        Blocks { inner, heads, width }
    }

    fn ssm_count(&self, b: &Blocks) -> (r: Count)
        requires
            b.are(*self),
        ensures
            r.well_formed(),
            r.exact@ == self.ssm_weights(),
    {
        let d = Count::of(self.d_model);
        let (n, r) = (Count::of(self.state_rank), Count::of(self.mimo_rank));
        let projections = d.times(&b.width).plus(&b.inner.times(&d));
        let mimo = if self.mimo_rank > 1 {
            b.heads.scaled(3).times(&r).times(&Count::of(self.head_dim))
        } else {
            Count::of(0)
        };
        let small = b.heads.scaled(2).plus(&n.scaled(2)).plus(
            &b.heads.scaled(2).times(&r).times(&n),
        ).plus(&Count::of(self.head_dim));
        projections.plus(&mimo).plus(&small)
    }

    fn kv_count(&self) -> (r: Count)
        requires
            self.attn_heads > 0,
        ensures
            r.well_formed(),
            r.exact@ == self.attn_kv_heads * self.attn_head(),
    {
        Count::of(self.attn_kv_heads).times(&Count::of(self.d_model / self.attn_heads))
    }

    fn attn_count(&self) -> (r: Count)
        requires
            self.attn_heads > 0,
        ensures
            r.well_formed(),
            r.exact@ == self.attn_weights(),
    {
        let d = Count::of(self.d_model);
        let head = Count::of(self.d_model / self.attn_heads);
        let twice = d.scaled(2);
        twice.times(&d).plus(&twice.times(&self.kv_count())).plus(&head.scaled(2))
    }

    /// The parameters of the model, if they can be counted.
    fn weight_count(&self) -> (r: Option<Count>)
        ensures
            match r {
                Some(total) => self.countable() && total.well_formed() && total.exact@
                    == self.weights(),
                None => !self.countable(),
            },
    {
        let (ssm, attention) = self.layer_counts();
        if (ssm > 0 && self.head_dim == 0) || (attention > 0 && self.attn_heads == 0) {
            return None;
        }
        let ffn = self.ffn_count();
        let n = Count::of(self.n_layers);
        let norms = n.scaled(2).plus(&Count::of(1));
        if !ffn.addressable() || !norms.addressable() {
            return None;
        }
        let mut layers = Count::of(0);
        if ssm > 0 {
            let b = self.blocks();
            if !b.inner.addressable() || !b.width.addressable() {
                return None;
            }
            layers = self.ssm_count(&b).scaled(ssm);
        }
        assert(layers.exact@ == self.ssm_layers() * self.ssm_weights()) by {
            assert(0 * self.ssm_weights() == 0);
        }
        let ghost before = layers.exact@;
        if attention > 0 {
            if !self.kv_count().addressable() {
                return None;
            }
            layers = layers.plus(&self.attn_count().scaled(attention));
        }
        assert(layers.exact@ == before + self.attn_layers() * self.attn_weights()) by {
            assert(0 * self.attn_weights() == 0);
        }
        let d = Count::of(self.d_model);
        let table = Count::of(self.vocab_size).times(&d);
        let mut total = table.plus(&layers);
        if !self.tied_embeddings {
            total = total.plus(&table);
        }
        let total = total.plus(&n.times(&Count::of(3)).times(&d).times(&ffn)).plus(
            &norms.times(&d),
        );
        assert(total.exact@ == self.weights());
        if total.addressable() {
            Some(total)
        } else {
            None
        }
    }

    /// Whether the parameters can be counted.
    pub fn is_countable(&self) -> (r: bool)
        ensures
            r == self.countable(),
    {
        self.weight_count().is_some()
    }

    /// Whether the budget of a compute-efficient run can be counted.
    pub fn is_run_countable(&self) -> (r: bool)
        ensures
            r == (self.countable() && 20 * self.weights() <= usize::MAX),
    {
        match self.weight_count() {
            Some(total) => total.scaled(20).addressable(),
            None => false,
        }
    }

    /// Whether the FLOPs of a token can be counted.
    pub fn is_flops_countable(&self) -> (r: bool)
        ensures
            r == self.flops_countable(),
    {
        let (ssm, attention) = self.layer_counts();
        if (ssm > 0 && self.head_dim == 0) || (attention > 0 && self.attn_heads == 0) {
            return false;
        }
        let d = Count::of(self.d_model);
        let twice = d.scaled(2);
        let ffn = self.ffn_count();
        if self.n_layers > 0 && !ffn.addressable() {
            return false;
        }
        let mut layers = Count::of(0);
        if ssm > 0 {
            let b = self.blocks();
            let width = b.width.plus(&b.inner);
            let state = b.heads.times(&Count::of(self.head_dim)).times(&Count::of(self.state_rank));
            if !b.inner.addressable() || !width.addressable() || !state.addressable() {
                return false;
            }
            let layer = twice.times(&width).plus(&state.scaled(4).times(&Count::of(self.mimo_rank)));
            assert(layer.exact@ == self.ssm_flops());
            layers = layer.scaled(ssm);
        }
        assert(layers.exact@ == self.ssm_layers() * self.ssm_flops()) by {
            assert(0 * self.ssm_flops() == 0);
        }
        let ghost before = layers.exact@;
        if attention > 0 {
            let span = match self.attn_window {
                Some(window) => if window < self.seq_len {
                    window
                } else {
                    self.seq_len
                },
                None => self.seq_len,
            };
            let kv = self.kv_count();
            let layer = twice.times(&twice.plus(&kv.scaled(2))).plus(
                &Count::of(span).scaled(4).times(&d),
            );
            assert(layer.exact@ == self.attn_flops());
            layers = layers.plus(&layer.scaled(attention));
        }
        assert(layers.exact@ == before + self.attn_layers() * self.attn_flops()) by {
            assert(0 * self.attn_flops() == 0);
        }
        let block = d.scaled(6).times(&ffn);
        let total = layers.plus(&block.scaled(self.n_layers)).plus(
            &twice.times(&Count::of(self.vocab_size)),
        );
        assert(total.exact@ == self.flops());
        total.known.is_some()
    }

    /// Whether the activations of a micro-batch can be counted.
    pub fn is_batch_measurable(&self, batch: usize) -> (r: bool)
        ensures
            r == self.batch_measurable(batch as int),
    {
        if self.head_dim == 0 || self.seq_len == 0 {
            return false;
        }
        if let Some(window) = self.attn_window {
            if window == 0 {
                return false;
            }
        }
        let d = Count::of(self.d_model);
        let b = self.blocks();
        let r = Count::of(self.mimo_rank);
        let ssm = b.width.plus(&r.times(&b.heads).times(&Count::of(self.head_dim))).plus(
            &r.scaled(2).times(&b.heads).times(&Count::of(self.state_rank)),
        ).plus(&b.heads.scaled(3)).plus(&b.inner.scaled(6)).plus(&d);
        assert(ssm.exact@ == self.ssm_kept());
        if !b.inner.addressable() || !b.width.addressable() || !ssm.addressable() {
            return false;
        }
        let pairs = Count::wide(self.wide_pairs());
        let scores = Count::of(self.attn_heads).scaled(2).times(&pairs);
        if !pairs.addressable() || !scores.addressable() {
            return false;
        }
        proof {
            vstd::arithmetic::div_mod::lemma_div_pos_is_pos(scores.exact@, self.seq_len as int);
        }
        let spread = match scores.known {
            Some(scores) => scores / self.seq_len as u128,
            None => 0,
        };
        let attention = d.scaled(6).plus(&Count::wide(spread));
        assert(attention.exact@ == self.attn_kept());
        let ffn = self.ffn_count();
        let block = d.scaled(4).plus(&ffn.scaled(4));
        let blocks = block.scaled(self.n_layers);
        let head = Count::of(self.vocab_size).scaled(2).plus(&d);
        if !attention.addressable() || !ffn.addressable() || !block.addressable()
            || !blocks.addressable() || !head.addressable() {
            return false;
        }
        let (ssm_layers, attn_layers) = self.layer_counts();
        (ssm_layers == 0 || self.bytes_addressable(batch, &ssm)) && (attn_layers == 0
            || self.bytes_addressable(batch, &attention)) && self.bytes_addressable(batch, &blocks)
            && self.bytes_addressable(batch, &head)
    }

    fn bytes_addressable(&self, batch: usize, kept: &Count) -> (r: bool)
        requires
            kept.well_formed(),
        ensures
            r == (self.bytes(batch as int, kept.exact@) <= usize::MAX),
    {
        Count::of(batch).times(&Count::of(self.seq_len)).times(kept).times(
            &Count::of(4),
        ).addressable()
    }
}

} // verus!
