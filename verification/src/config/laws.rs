//! What holds of the parameter arithmetic as a whole: a budget is the sum of the
//! tensors that it pays for, and the other estimates follow from the same
//! tensors.

use vstd::prelude::*;

use crate::config::{
    Activations, Budget, FfnDtype, HeadDtype, Invalid, Mamba, MambaDtype, Mixer, Model, Rope,
    SsdMode,
};
use crate::decimal;
use crate::decimal::Decimal;
use crate::math;
use crate::preset::Preset;
use crate::text;
use crate::train::run::Run;

verus! {

/// The product of the dimensions from `from` on.
pub open spec fn volume_from(dims: Seq<int>, from: int) -> int
    decreases dims.len() - from,
{
    if from < 0 || from >= dims.len() {
        1
    } else {
        dims[from] * volume_from(dims, from + 1)
    }
}

/// The entries of a tensor: the product of its dimensions.
pub open spec fn volume(dims: Seq<int>) -> int {
    volume_from(dims, 0)
}

/// The entries of the tensors from `from` on.
pub open spec fn total_from(tensors: Seq<Seq<int>>, from: int) -> int
    decreases tensors.len() - from,
{
    if from < 0 || from >= tensors.len() {
        0
    } else {
        volume(tensors[from]) + total_from(tensors, from + 1)
    }
}

/// The entries of a list of tensors.
pub open spec fn total(tensors: Seq<Seq<int>>) -> int {
    total_from(tensors, 0)
}

proof fn volumes(a: int, b: int, c: int)
    ensures
        volume(seq![a]) == a,
        volume(seq![a, b]) == a * b,
        volume(seq![a, b, c]) == a * b * c,
{
    reveal_with_fuel(volume_from, 4);
    assert(a * 1 == a && b * 1 == b && c * 1 == c);
    assert(a * (b * c) == a * b * c) by (nonlinear_arith);
}

/// The angles of the rotary embedding pair up the dimensions that carry it: none
/// of the state, half of it or all of it. An odd dimension is left over.
pub open spec fn are_angles(rope: Rope, state_rank: int, angles: int) -> bool {
    match rope {
        Rope::Off => angles == 0,
        Rope::Half => 4 * angles <= state_rank < 4 * angles + 4,
        Rope::All => 2 * angles <= state_rank < 2 * angles + 2,
    }
}

/// The input projection of a block writes the gating branch and the values, each as
/// wide as the block, `B` and `C` for each group, channel and state dimension,
/// three scalars for each head, and the angles.
pub proof fn input_projections_write_every_branch(b: Mamba, r: usize, angles: int)
    requires
        call_ensures(Mamba::d_in_proj, (&b,), r),
        b.per_head_dim > 0,
        are_angles(b.rope_fraction, b.state_rank as int, angles),
    ensures
        ({
            let inner = b.expand * b.d_model;
            let heads = inner / (b.per_head_dim as int);
            r == total(
                seq![
                    seq![inner],
                    seq![inner],
                    seq![b.ngroups as int, b.state_rank as int, b.mimo_rank as int],
                    seq![b.ngroups as int, b.state_rank as int, b.mimo_rank as int],
                    seq![3, heads],
                    seq![angles],
                ],
            )
        }),
{
    let inner = b.expand * b.d_model;
    let heads = inner / (b.per_head_dim as int);
    let (g, n, c) = (b.ngroups as int, b.state_rank as int, b.mimo_rank as int);
    volumes(inner, 0, 0);
    volumes(g, n, c);
    volumes(3, heads, 0);
    volumes(angles, 0, 0);
    reveal_with_fuel(total_from, 7);
    assert(2 * g * n * c == g * n * c + g * n * c) by (nonlinear_arith);
}

/// The weights of an SSM layer, tensor by tensor.
pub open spec fn ssm_tensors(m: Model, heads: int, angles: int) -> Seq<Seq<int>> {
    let (d, n, r, p) = (
        m.d_model as int,
        m.state_rank as int,
        m.mimo_rank as int,
        m.head_dim as int,
    );
    let inner = m.expand * d;
    let width = 2 * inner + 2 * (m.n_groups * n * r) + 3 * heads + angles;
    let block = seq![
        // The input and the output projection.
        seq![d, width],
        seq![inner, d],
        // The step bias and the skip of each head.
        seq![heads],
        seq![heads],
        // The gains of the norms on `B` and `C`, and their biases.
        seq![n],
        seq![n],
        seq![heads, r, n],
        seq![heads, r, n],
        // The gain of the norm on the output.
        seq![p],
    ];
    if r > 1 {
        // The three channel mixes of each head.
        block + seq![seq![heads, r, p], seq![heads, r, p], seq![heads, r, p]]
    } else {
        block
    }
}

/// The parameters of an SSM layer are the entries of its weight tensors, whatever
/// the factor by which it widens the model.
pub proof fn ssm_layers_are_their_tensors(m: Model, heads: int, angles: int)
    requires
        m.head_dim > 0,
        heads * m.head_dim <= m.expand * m.d_model < (heads + 1) * m.head_dim,
        are_angles(m.rope_fraction, m.state_rank as int, angles),
    ensures
        m.ssm_weights() == total(ssm_tensors(m, heads, angles)),
{
    let (d, n, r, p) = (
        m.d_model as int,
        m.state_rank as int,
        m.mimo_rank as int,
        m.head_dim as int,
    );
    let inner = m.expand * d;
    heads_are(inner, p, heads);
    let width = 2 * inner + 2 * (m.n_groups * n * r) + 3 * heads + angles;
    assert(2 * m.n_groups * n * r == 2 * (m.n_groups * n * r)) by (nonlinear_arith);
    assert(width == m.mamba_of().in_width());
    volumes(d, width, 0);
    volumes(inner, d, 0);
    volumes(heads, r, n);
    volumes(heads, r, p);
    volumes(n, 0, 0);
    volumes(p, 0, 0);
    reveal_with_fuel(total_from, 13);
    assert(2 * heads * r * n == heads * r * n + heads * r * n) by (nonlinear_arith);
    assert(3 * heads * r * p == heads * r * p + heads * r * p + heads * r * p) by (nonlinear_arith);
    let all = ssm_tensors(m, heads, angles);
    assert(all[0] == seq![d, width]);
    assert(all[1] == seq![inner, d]);
    if r > 1 {
        assert(all.len() == 12);
        assert(all[9] == seq![heads, r, p]);
        assert(all[10] == seq![heads, r, p]);
        assert(all[11] == seq![heads, r, p]);
    }
}

proof fn heads_are(inner: int, p: int, heads: int)
    requires
        p > 0,
        heads * p <= inner < (heads + 1) * p,
    ensures
        inner / p == heads,
{
    let rest = inner - heads * p;
    assert((heads + 1) * p == heads * p + p) by (nonlinear_arith);
    assert(inner == heads * p + rest);
    vstd::arithmetic::div_mod::lemma_fundamental_div_mod_converse(inner, p, heads, rest);
}

/// How many of the layers attend: the last of each period, but never the first
/// layer.
pub open spec fn attending(m: Model) -> int {
    match m.attn_period {
        Some(period) => if period == 1 && m.n_layers > 0 {
            m.n_layers - 1
        } else if period > 0 {
            m.n_layers as int / (period as int)
        } else {
            0
        },
        None => 0,
    }
}

/// A budget pays for every tensor of the model and for nothing else: the
/// vocabulary twice where the head has its own, the tensors of each layer's mixer,
/// the three matrices of each feed-forward layer, and a gain for each of the two
/// norms of a layer and the last one.
pub proof fn budgets_pay_for_every_tensor(
    m: Model,
    b: Budget,
    ff: usize,
    heads: int,
    angles: int,
    head: int,
)
    requires
        call_ensures(Model::budget, (&m,), b),
        call_ensures(Model::d_ff, (&m,), ff),
        m.head_dim > 0,
        heads * m.head_dim <= m.expand * m.d_model < (heads + 1) * m.head_dim,
        are_angles(m.rope_fraction, m.state_rank as int, angles),
        m.attn_heads > 0,
        head * m.attn_heads <= m.d_model < (head + 1) * m.attn_heads,
    ensures
        ({
            let (d, v) = (m.d_model as int, m.vocab_size as int);
            let kv = m.attn_kv_heads * head;
            &&& b.embedding == volume(seq![v, d])
            &&& b.head == if m.tied_embeddings {
                0
            } else {
                volume(seq![v, d])
            }
            &&& b.ssm == (m.n_layers - attending(m)) * total(ssm_tensors(m, heads, angles))
            &&& b.attention == attending(m) * total(
                seq![
                    // The queries and the output, then the keys and the values.
                    seq![d, d],
                    seq![d, d],
                    seq![d, kv],
                    seq![d, kv],
                    // The gains of the norms on queries and keys.
                    seq![head],
                    seq![head],
                ],
            )
            &&& b.ffn == m.n_layers * total(
                seq![seq![d, ff as int], seq![d, ff as int], seq![ff as int, d]],
            )
            &&& b.norms == volume(seq![2 * m.n_layers + 1, d])
            &&& b.total == b.embedding + b.head + b.ssm + b.attention + b.ffn + b.norms
        }),
{
    let (d, v) = (m.d_model as int, m.vocab_size as int);
    let kv = m.attn_kv_heads * head;
    let f = ff as int;
    crate::config::attention_shares_the_stack(m, m.n_layers as nat);
    ssm_layers_are_their_tensors(m, heads, angles);
    heads_are(d, m.attn_heads as int, head);
    volumes(v, d, 0);
    volumes(d, d, 0);
    volumes(d, kv, 0);
    volumes(head, 0, 0);
    volumes(d, f, 0);
    volumes(f, d, 0);
    volumes(2 * m.n_layers + 1, d, 0);
    reveal_with_fuel(total_from, 7);
    assert(2 * d * d == d * d + d * d) by (nonlinear_arith);
    assert(2 * d * kv == d * kv + d * kv) by (nonlinear_arith);
    let l = m.n_layers as int;
    assert(l * 3 * d * f == l * (d * f + d * f + f * d)) by (nonlinear_arith);
}

/// A model has no other sizes than it was made with, and is otherwise like every
/// other new model.
pub proof fn new_models_differ_in_their_sizes_alone(v: usize, d: usize, n: usize, m: Model, o: Model)
    requires
        call_ensures(Model::new, (v, d, n), m),
        call_ensures(Model::new, (o.vocab_size, o.d_model, o.n_layers), o),
    ensures
        m == (Model { vocab_size: v, d_model: d, n_layers: n, ..o }),
        m.expand == 2,
        m.n_groups == 1,
        m.mimo_rank == 1,
        m.rope_fraction is Half,
        m.ssd_chunk is None,
        m.attn_period is None,
        m.tied_embeddings,
        m.seq_len == 2 * m.attn_window->0,
        m.state_rank == 2 * m.head_dim,
        m.attn_heads == 6 * m.attn_kv_heads,
        m.z_loss == (Decimal { digits: 1, exp: -4 as i32 }),
        m.ffn_mult == (Decimal { digits: 25, exp: -1 as i32 }),
        m.attn_window == Some(1024usize),
        m.head_dim == 64,
        m.attn_kv_heads == 2,
{
}

/// The feed-forward width is the first multiple of 64 from the scaled width on.
pub proof fn feed_forward_widths_are_whole_tiles(m: Model, ff: usize)
    requires
        call_ensures(Model::d_ff, (&m,), ff),
    ensures
        ff % 64 == 0,
        decimal::scaled(m.d_model as nat, m.ffn_mult) <= ff,
        ff < decimal::scaled(m.d_model as nat, m.ffn_mult) + 64,
{
    math::quotient_up_covers(m.ffn_raw(), 64);
}

/// A token costs two operations for each entry of the matrices that it passes
/// through, a write and a read of every state scalar for each channel, and a
/// product and a sum with every key that it sees, which is the whole sequence
/// unless the window is narrower.
pub proof fn tokens_cost_two_operations_an_entry(
    m: Model,
    flops: u128,
    ff: usize,
    heads: int,
    angles: int,
    head: int,
    seen: usize,
)
    requires
        call_ensures(Model::flops_per_token, (&m,), flops),
        call_ensures(Model::d_ff, (&m,), ff),
        m.head_dim > 0,
        heads * m.head_dim <= m.expand * m.d_model < (heads + 1) * m.head_dim,
        are_angles(m.rope_fraction, m.state_rank as int, angles),
        m.attn_heads > 0,
        head * m.attn_heads <= m.d_model < (head + 1) * m.attn_heads,
        seen <= m.seq_len,
        m.attn_window matches Some(w) ==> seen <= w,
        seen == m.seq_len || m.attn_window == Some(seen),
    ensures
        ({
            let (d, v) = (m.d_model as int, m.vocab_size as int);
            let kv = m.attn_kv_heads * head;
            let block = ssm_tensors(m, heads, angles);
            flops == (m.n_layers - attending(m)) * (2 * (volume(block[0]) + volume(block[1])) + 4
                * volume(seq![heads, m.head_dim as int, m.state_rank as int]) * m.mimo_rank)
                + attending(m) * (2 * total(
                seq![seq![d, d], seq![d, d], seq![d, kv], seq![d, kv]],
            ) + 4 * (seen * d)) + m.n_layers * (2 * total(
                seq![seq![d, ff as int], seq![d, ff as int], seq![ff as int, d]],
            )) + 2 * volume(seq![v, d])
        }),
{
    let (d, v) = (m.d_model as int, m.vocab_size as int);
    let kv = m.attn_kv_heads * head;
    let f = ff as int;
    let (n, r, p) = (m.state_rank as int, m.mimo_rank as int, m.head_dim as int);
    let inner = m.expand * d;
    heads_are(inner, p, heads);
    heads_are(d, m.attn_heads as int, head);
    crate::config::attention_shares_the_stack(m, m.n_layers as nat);
    let width = 2 * inner + 2 * (m.n_groups * n * r) + 3 * heads + angles;
    assert(2 * m.n_groups * n * r == 2 * (m.n_groups * n * r)) by (nonlinear_arith);
    assert(width == m.mamba_of().in_width());
    let block = ssm_tensors(m, heads, angles);
    assert(block[0] == seq![d, width]);
    assert(block[1] == seq![inner, d]);
    volumes(d, width, 0);
    volumes(inner, d, 0);
    volumes(heads, p, n);
    volumes(d, d, 0);
    volumes(d, kv, 0);
    volumes(d, f, 0);
    volumes(f, d, 0);
    volumes(v, d, 0);
    reveal_with_fuel(total_from, 7);
    assert(2 * d * (width + inner) == 2 * (d * width + inner * d)) by (nonlinear_arith);
    assert(2 * d * (2 * d + 2 * kv) == 2 * (d * d + d * d + d * kv + d * kv)) by (nonlinear_arith);
    assert(4 * seen * d == 4 * (seen * d)) by (nonlinear_arith);
    assert(6 * d * f == 2 * (d * f + d * f + f * d)) by (nonlinear_arith);
    assert(2 * d * v == 2 * (v * d)) by (nonlinear_arith);
    assert(seen == m.span());
}

/// What the backward pass reads is kept in four bytes a number for each token of
/// the micro-batch. The scores of attention and their softmax are spread over the
/// tokens of the sequence, rounded down.
pub proof fn activations_keep_four_bytes_a_number(
    m: Model,
    batch: usize,
    a: Activations,
    ff: usize,
    heads: int,
    angles: int,
    pairs: usize,
    share: int,
)
    requires
        call_ensures(Model::activations, (&m, batch), a),
        call_ensures(Model::d_ff, (&m,), ff),
        call_ensures(Model::attn_pairs, (&m,), pairs),
        m.head_dim > 0,
        m.seq_len > 0,
        heads * m.head_dim <= m.expand * m.d_model < (heads + 1) * m.head_dim,
        are_angles(m.rope_fraction, m.state_rank as int, angles),
        share * m.seq_len <= 2 * m.attn_heads * pairs < (share + 1) * m.seq_len,
    ensures
        ({
            let (d, v, n, r, p) = (
                m.d_model as int,
                m.vocab_size as int,
                m.state_rank as int,
                m.mimo_rank as int,
                m.head_dim as int,
            );
            let inner = m.expand * d;
            let width = 2 * inner + 2 * (m.n_groups * n * r) + 3 * heads + angles;
            let tokens = batch * m.seq_len;
            &&& a.ssm == (m.n_layers - attending(m)) * (4 * (tokens * total(
                seq![
                    // The output of the input projection, and what the scan keeps.
                    seq![width],
                    seq![r, heads, p],
                    seq![r, heads, n],
                    seq![r, heads, n],
                    seq![3, heads],
                    // The norm with its gating, and the output projection.
                    seq![6, inner],
                    seq![d],
                ],
            )))
            &&& a.attention == attending(m) * (4 * (tokens * (6 * d + share)))
            &&& a.ffn == 4 * (tokens * (m.n_layers * total(seq![seq![4, d], seq![4, ff as int]])))
            &&& a.head == 4 * (tokens * total(seq![seq![2, v], seq![d]]))
            &&& a.total == a.ssm + a.attention + a.ffn + a.head
        }),
{
    let (d, v, n, r, p) = (
        m.d_model as int,
        m.vocab_size as int,
        m.state_rank as int,
        m.mimo_rank as int,
        m.head_dim as int,
    );
    let inner = m.expand * d;
    let f = ff as int;
    heads_are(inner, p, heads);
    crate::config::attention_shares_the_stack(m, m.n_layers as nat);
    let width = 2 * inner + 2 * (m.n_groups * n * r) + 3 * heads + angles;
    assert(2 * m.n_groups * n * r == 2 * (m.n_groups * n * r)) by (nonlinear_arith);
    assert(width == m.mamba_of().in_width());
    heads_are(2 * m.attn_heads * pairs, m.seq_len as int, share);
    volumes(width, 0, 0);
    volumes(r, heads, p);
    volumes(r, heads, n);
    volumes(3, heads, 0);
    volumes(6, inner, 0);
    volumes(d, 0, 0);
    volumes(4, d, 0);
    volumes(4, f, 0);
    volumes(2, v, 0);
    reveal_with_fuel(total_from, 8);
    assert(2 * r * heads * n == r * heads * n + r * heads * n) by (nonlinear_arith);
    let tokens = batch * m.seq_len;
    let (x, y, z, w) = (m.ssm_kept(), m.attn_kept(), m.ffn_kept(), m.head_kept());
    assert(tokens * x * 4 == 4 * (tokens * x)) by (nonlinear_arith);
    assert(tokens * y * 4 == 4 * (tokens * y)) by (nonlinear_arith);
    assert(tokens * z * 4 == 4 * (tokens * z)) by (nonlinear_arith);
    assert(tokens * w * 4 == 4 * (tokens * w)) by (nonlinear_arith);
}

/// The keys that query `q` is scored against: those of its block of `window`
/// queries, and the `window - 1` before the block.
pub open spec fn scored_keys(seq: int, window: int, q: int) -> int {
    let start = q - q % window;
    let end = if start + window < seq {
        start + window
    } else {
        seq
    };
    let first = if start + 1 - window > 0 {
        start + 1 - window
    } else {
        0
    };
    end - first
}

/// The keys that the first `n` queries are scored against.
pub open spec fn scored_pairs(seq: int, window: Option<int>, n: nat) -> int
    decreases n,
{
    if n == 0 {
        0
    } else {
        scored_pairs(seq, window, (n - 1) as nat) + match window {
            Some(w) => scored_keys(seq, w, n - 1),
            None => seq,
        }
    }
}

proof fn dense_pairs(seq: int, n: nat)
    ensures
        scored_pairs(seq, None, n) == n * seq,
    decreases n,
{
    if n > 0 {
        dense_pairs(seq, (n - 1) as nat);
        assert((n - 1) * seq + seq == n * seq) by (nonlinear_arith);
    } else {
        assert(0 * seq == 0);
    }
}

proof fn block_is_scored(seq: int, w: int, start: int, n: int)
    requires
        0 < w,
        0 <= start,
        start % w == 0,
        0 <= n <= w,
        start + n <= seq,
    ensures
        scored_pairs(seq, Some(w), (start + n) as nat) == scored_pairs(seq, Some(w), start as nat) + n
            * scored_keys(seq, w, start),
    decreases n,
{
    let keys = scored_keys(seq, w, start);
    if n > 0 {
        block_is_scored(seq, w, start, n - 1);
        let q = start + n - 1;
        let k = start / w;
        vstd::arithmetic::div_mod::lemma_fundamental_div_mod(start, w);
        assert(w * k == k * w) by (nonlinear_arith);
        vstd::arithmetic::div_mod::lemma_fundamental_div_mod_converse(q, w, k, n - 1);
        assert((n - 1) * keys + keys == n * keys) by (nonlinear_arith);
    } else {
        assert(0 * keys == 0);
    }
}

proof fn blocks_are_scored(seq: int, w: int, start: int)
    requires
        0 < w,
        0 <= start <= seq,
        start % w == 0,
    ensures
        crate::config::block_pairs(seq, w, start) + scored_pairs(seq, Some(w), start as nat)
            == scored_pairs(seq, Some(w), seq as nat),
    decreases seq - start,
{
    if start < seq {
        let end = if seq - start < w {
            seq
        } else {
            start + w
        };
        block_is_scored(seq, w, start, end - start);
        if end < seq {
            vstd::arithmetic::div_mod::lemma_mod_add_multiples_vanish(start, w);
            assert((start + w) % w == start % w);
            blocks_are_scored(seq, w, end);
        } else {
            assert(crate::config::block_pairs(seq, w, start + w) == 0);
        }
    }
}

/// Attention materialises a score for each query and each key that the query's
/// block reads; without a window, or with one that the sequence does not fill,
/// for each pair of tokens.
pub proof fn every_query_is_scored_against_its_block(m: Model, pairs: usize)
    requires
        call_ensures(Model::attn_pairs, (&m,), pairs),
        m.attn_window != Some(0usize),
    ensures
        pairs == scored_pairs(
            m.seq_len as int,
            match m.attn_window {
                Some(w) => if w < m.seq_len {
                    Some(w as int)
                } else {
                    None
                },
                None => None,
            },
            m.seq_len as nat,
        ),
{
    let seq = m.seq_len as int;
    dense_pairs(seq, m.seq_len as nat);
    if let Some(w) = m.attn_window {
        if w < m.seq_len {
            vstd::arithmetic::div_mod::lemma_small_mod(0, w as nat);
            blocks_are_scored(seq, w as int, 0);
        }
    }
}

/// No key within the window of a query is left out of what its block reads.
pub proof fn blocks_read_the_whole_window(seq: int, window: int, q: int, key: int)
    requires
        0 < window,
        0 <= key <= q < seq,
        q - key < window,
    ensures
        ({
            let start = q - q % window;
            &&& start + 1 - window <= key
            &&& key < start + window
            &&& scored_keys(seq, window, q) >= q - key + 1
        }),
{
    vstd::arithmetic::div_mod::lemma_mod_bound(q, window);
}

proof fn divides_is(d: int, n: int)
    requires
        d >= 0,
        n >= 0,
    ensures
        crate::config::divides(d, n) <==> exists|k: int| #[trigger] math::goes_into(d, n, k),
{
    if d > 0 {
        math::nothing_is_left_over(d, n);
    } else {
        if n == 0 {
            assert(math::goes_into(d, n, 0));
        }
        if exists|k: int| #[trigger] math::goes_into(d, n, k) {
            let k = choose|k: int| #[trigger] math::goes_into(d, n, k);
            assert(k * 0 == 0) by (nonlinear_arith);
        }
    }
}

/// A model can be built if and only if its state has an even rank, its width goes
/// into whole heads, its heads into whole groups, it has a channel, and, where it
/// attends, its attention goes into whole heads and those into whole key and value
/// heads. The first of these that fails is named, with the numbers at odds.
pub proof fn models_can_be_built_where_they_split(m: Model, r: Result<(), Invalid>)
    requires
        call_ensures(Model::validate, (&m,), r),
        m.head_dim > 0 || m.expand * m.d_model > 0,
        m.expand * m.d_model <= usize::MAX,
    ensures
        ({
            let inner = m.expand * m.d_model;
            let heads = inner / (m.head_dim as int);
            let even = m.state_rank % 2 == 0;
            let whole = exists|k: int| #[trigger] math::goes_into(m.head_dim as int, inner, k);
            let grouped = exists|k: int| #[trigger] math::goes_into(m.n_groups as int, heads, k);
            let attends = m.attn_period is Some;
            let split = exists|k: int| #[trigger]
                math::goes_into(m.attn_heads as int, m.d_model as int, k);
            let shared = exists|k: int| #[trigger]
                math::goes_into(m.attn_kv_heads as int, m.attn_heads as int, k);
            &&& r is Ok <==> even && whole && grouped && m.mimo_rank >= 1 && (attends ==> split
                && shared)
            &&& !even ==> r == Err::<(), Invalid>(Invalid::OddStateRank(m.state_rank))
            &&& even && !whole ==> r == Err::<(), Invalid>(
                Invalid::HeadDim { head_dim: m.head_dim, d_inner: inner as usize },
            )
            &&& even && whole && !grouped ==> r == Err::<(), Invalid>(
                Invalid::Groups { groups: m.n_groups, heads: heads as usize },
            )
            &&& even && whole && grouped && m.mimo_rank == 0 ==> r == Err::<(), Invalid>(
                Invalid::MimoRank,
            )
            &&& even && whole && grouped && m.mimo_rank >= 1 && attends && !split ==> r == Err::<
                (),
                Invalid,
            >(Invalid::AttnHeads { heads: m.attn_heads, d_model: m.d_model })
            &&& even && whole && grouped && m.mimo_rank >= 1 && attends && split && !shared ==> r
                == Err::<(), Invalid>(
                Invalid::KvHeads { kv: m.attn_kv_heads, heads: m.attn_heads },
            )
        }),
{
    let inner = m.expand * m.d_model;
    assert(inner >= 0) by (nonlinear_arith)
        requires
            inner == m.expand * m.d_model,
    ;
    let heads = inner / (m.head_dim as int);
    divides_is(m.head_dim as int, inner);
    if m.head_dim > 0 {
        vstd::arithmetic::div_mod::lemma_div_pos_is_pos(inner, m.head_dim as int);
        divides_is(m.n_groups as int, heads);
    }
    divides_is(m.attn_heads as int, m.d_model as int);
    divides_is(m.attn_kv_heads as int, m.attn_heads as int);
}

/// A layer attends if and only if it is the last of a period and not the first of
/// the stack.
pub proof fn attention_closes_a_period(m: Model, index: usize, mixer: Mixer)
    requires
        call_ensures(Model::mixer, (&m, index), mixer),
        index < usize::MAX,
    ensures
        mixer is Attention <==> index > 0 && (m.attn_period matches Some(period) && period > 0
            && exists|k: int| #[trigger] math::goes_into(period as int, index + 1, k)),
{
    if let Some(period) = m.attn_period {
        divides_is(period as int, index + 1);
    }
}

/// The micro-batch that fits is the largest: another one fits beside the states of
/// the optimizer exactly where it is no larger. Where a micro-batch costs nothing,
/// any number of them fits into what the states leave, and none where they leave
/// nothing.
pub proof fn no_larger_micro_batch_fits(
    m: Model,
    bytes: u64,
    per_param: u64,
    r: usize,
    b: Budget,
    a: Activations,
    batch: int,
)
    requires
        call_ensures(Model::micro_batch_within, (&m, bytes, per_param), r),
        call_ensures(Model::budget, (&m,), b),
        call_ensures(Model::activations, (&m, 1usize), a),
        batch >= 1,
    ensures
        a.total > 0 ==> (b.total * per_param + batch * a.total <= bytes <==> batch <= r),
        a.total == 0 ==> r == if b.total * per_param < bytes {
            usize::MAX
        } else {
            0
        },
{
    crate::config::activations_scale_with_the_batch(m, batch);
    if a.total > 0 {
        crate::config::the_micro_batch_is_the_largest(m, bytes as int, per_param as int, batch);
    }
}

/// A compute-efficient run sees twenty tokens for each parameter, and takes the
/// fewest steps that show it as many.
pub proof fn twenty_tokens_are_seen_for_each_parameter(
    m: Model,
    b: Budget,
    tokens: usize,
    per_step: usize,
    steps: usize,
)
    requires
        call_ensures(Model::budget, (&m,), b),
        call_ensures(Model::chinchilla_tokens, (&m,), tokens),
        call_ensures(crate::config::factorio::chinchilla_steps, (&m, per_step), steps),
    ensures
        tokens == 20 * b.total,
        per_step >= 1 ==> steps * per_step >= 20 * b.total,
        per_step >= 1 && b.total > 0 ==> (steps - 1) * per_step < 20 * b.total,
        per_step == 0 ==> steps == 20 * b.total,
{
    if per_step >= 1 {
        crate::config::factorio::steps_cover_twenty_tokens_a_parameter(m, per_step as int);
    } else {
        math::quotient_up_covers(20 * m.weights(), 1);
    }
}

/// A chunk that was asked for is taken as it is, but holds a token at least.
/// Otherwise it is the largest divisor of the sequence up to the first multiple
/// of 32 whose square covers the state of a head.
pub proof fn chunks_divide_the_sequence(m: Model, chunk: usize, optimal: usize)
    requires
        call_ensures(Model::ssd_chunk_len, (&m,), chunk),
        call_ensures(
            crate::config::optimal_chunk_len,
            (m.state_rank, m.head_dim),
            optimal,
        ),
    ensures
        m.ssd_chunk matches Some(c) ==> chunk >= 1 && (c >= 1 ==> chunk == c) && (c == 0 ==> chunk
            == 1),
        m.ssd_chunk is None && optimal > 0 && m.seq_len > 0 ==> {
            &&& 1 <= chunk <= optimal
            &&& m.seq_len % chunk == 0
            &&& forall|d: nat|
                chunk < d <= optimal && d <= m.seq_len ==> #[trigger] (m.seq_len as nat % d) != 0
        },
        m.ssd_chunk is None && m.seq_len == 0 ==> chunk == optimal,
        optimal % 32 == 0,
        optimal * optimal >= m.state_rank * m.head_dim,
        forall|c: nat|
            c % 32 == 0 && #[trigger] (c * c) >= m.state_rank * m.head_dim ==> c >= optimal,
{
    assert forall|c: nat|
        c % 32 == 0 && #[trigger] (c * c) >= m.state_rank * m.head_dim implies c >= optimal by {
        if c < optimal {
            assert(c * c <= (optimal - 32) * (optimal - 32)) by (nonlinear_arith)
                requires
                    0 <= c <= optimal - 32,
            ;
        }
    }
    if m.ssd_chunk is None && m.seq_len > 0 && optimal > 0 {
        crate::config::the_default_chunk_divides_the_sequence(m, chunk, optimal as nat);
    }
    if m.ssd_chunk is None && m.seq_len == 0 {
        let other = choose|o: nat| #[trigger]
            crate::config::suits_scan(m.state_rank as nat, m.head_dim as nat, o) && chunk == {
                let bound = if o < m.seq_len {
                    o
                } else {
                    m.seq_len as nat
                };
                if bound == 0 {
                    o
                } else {
                    crate::config::largest_divisor(m.seq_len as nat, bound)
                }
            };
        crate::config::one_chunk_suits_a_scan(
            m.state_rank as nat,
            m.head_dim as nat,
            other,
            optimal as nat,
        );
    }
}

/// Each setter of a model gives its own field the value, and no other field
/// another one.
pub proof fn setters_of_a_model_touch_one_field(m: Model)
    ensures
        forall|v: usize, r: Model| #[trigger]
            call_ensures(Model::with_seq_len, (m, v), r) ==> r.seq_len == v && (Model {
                seq_len: m.seq_len,
                ..r
            }) == m,
        forall|v: usize, r: Model| #[trigger]
            call_ensures(Model::with_state_rank, (m, v), r) ==> r.state_rank == v && (Model {
                state_rank: m.state_rank,
                ..r
            }) == m,
        forall|v: usize, r: Model| #[trigger]
            call_ensures(Model::with_expand, (m, v), r) ==> r.expand == v && (Model {
                expand: m.expand,
                ..r
            }) == m,
        forall|v: usize, r: Model| #[trigger]
            call_ensures(Model::with_head_dim, (m, v), r) ==> r.head_dim == v && (Model {
                head_dim: m.head_dim,
                ..r
            }) == m,
        forall|v: usize, r: Model| #[trigger]
            call_ensures(Model::with_n_groups, (m, v), r) ==> r.n_groups == v && (Model {
                n_groups: m.n_groups,
                ..r
            }) == m,
        forall|v: usize, r: Model| #[trigger]
            call_ensures(Model::with_mimo_rank, (m, v), r) ==> r.mimo_rank == v && (Model {
                mimo_rank: m.mimo_rank,
                ..r
            }) == m,
        forall|v: Rope, r: Model| #[trigger]
            call_ensures(Model::with_rope_fraction, (m, v), r) ==> r.rope_fraction == v && (Model {
                rope_fraction: m.rope_fraction,
                ..r
            }) == m,
        forall|v: Option<usize>, r: Model| #[trigger]
            call_ensures(Model::with_ssd_chunk, (m, v), r) ==> r.ssd_chunk == v && (Model {
                ssd_chunk: m.ssd_chunk,
                ..r
            }) == m,
        forall|v: Option<usize>, r: Model| #[trigger]
            call_ensures(Model::with_attn_period, (m, v), r) ==> r.attn_period == v && (Model {
                attn_period: m.attn_period,
                ..r
            }) == m,
        forall|v: usize, r: Model| #[trigger]
            call_ensures(Model::with_attn_heads, (m, v), r) ==> r.attn_heads == v && (Model {
                attn_heads: m.attn_heads,
                ..r
            }) == m,
        forall|v: usize, r: Model| #[trigger]
            call_ensures(Model::with_attn_kv_heads, (m, v), r) ==> r.attn_kv_heads == v && (Model {
                attn_kv_heads: m.attn_kv_heads,
                ..r
            }) == m,
        forall|v: Option<usize>, r: Model| #[trigger]
            call_ensures(Model::with_attn_window, (m, v), r) ==> r.attn_window == v && (Model {
                attn_window: m.attn_window,
                ..r
            }) == m,
        forall|v: Decimal, r: Model| #[trigger]
            call_ensures(Model::with_ffn_mult, (m, v), r) ==> r.ffn_mult == v && (Model {
                ffn_mult: m.ffn_mult,
                ..r
            }) == m,
        forall|v: bool, r: Model| #[trigger]
            call_ensures(Model::with_tied_embeddings, (m, v), r) ==> r.tied_embeddings == v && (
            Model { tied_embeddings: m.tied_embeddings, ..r }) == m,
        forall|v: Decimal, r: Model| #[trigger]
            call_ensures(Model::with_z_loss, (m, v), r) ==> r.z_loss == v && (Model {
                z_loss: m.z_loss,
                ..r
            }) == m,
{
}

/// Each setter of a run gives its own field the value, and no other field another
/// one.
pub proof fn setters_of_a_run_touch_one_field(run: Run)
    ensures
        forall|v: usize, r: Run| #[trigger]
            call_ensures(Run::with_steps, (run, v), r) ==> r.steps == v && (Run {
                steps: run.steps,
                ..r
            }) == run,
        forall|v: usize, r: Run| #[trigger]
            call_ensures(Run::with_micro_batch, (run, v), r) ==> r.micro_batch == v && (Run {
                micro_batch: run.micro_batch,
                ..r
            }) == run,
        forall|v: usize, r: Run| #[trigger]
            call_ensures(Run::with_accum, (run, v), r) ==> r.accum == v && (Run {
                accum: run.accum,
                ..r
            }) == run,
        forall|v: Decimal, r: Run| #[trigger]
            call_ensures(Run::with_lr, (run, v), r) ==> r.lr == v && (Run { lr: run.lr, ..r })
                == run,
        forall|v: usize, r: Run| #[trigger]
            call_ensures(Run::with_warmup, (run, v), r) ==> r.warmup == v && (Run {
                warmup: run.warmup,
                ..r
            }) == run,
        forall|v: usize, r: Run| #[trigger]
            call_ensures(Run::with_decay, (run, v), r) ==> r.decay == v && (Run {
                decay: run.decay,
                ..r
            }) == run,
        forall|v: bool, r: Run| #[trigger]
            call_ensures(Run::with_muon, (run, v), r) ==> r.muon == v && (Run {
                muon: run.muon,
                ..r
            }) == run,
        forall|v: bool, r: Run| #[trigger]
            call_ensures(Run::with_checkpointing, (run, v), r) ==> r.checkpointing == v && (Run {
                checkpointing: run.checkpointing,
                ..r
            }) == run,
        forall|v: Option<SsdMode>, r: Run| #[trigger]
            call_ensures(Run::with_ssd_mode, (run, v), r) ==> r.ssd_mode == v && (Run {
                ssd_mode: run.ssd_mode,
                ..r
            }) == run,
        forall|v: Option<HeadDtype>, r: Run| #[trigger]
            call_ensures(Run::with_head_dtype, (run, v), r) ==> r.head_dtype == v && (Run {
                head_dtype: run.head_dtype,
                ..r
            }) == run,
        forall|v: Option<FfnDtype>, r: Run| #[trigger]
            call_ensures(Run::with_ffn_dtype, (run, v), r) ==> r.ffn_dtype == v && (Run {
                ffn_dtype: run.ffn_dtype,
                ..r
            }) == run,
        forall|v: Option<MambaDtype>, r: Run| #[trigger]
            call_ensures(Run::with_mamba_dtype, (run, v), r) ==> r.mamba_dtype == v && (Run {
                mamba_dtype: run.mamba_dtype,
                ..r
            }) == run,
        forall|v: usize, r: Run| #[trigger]
            call_ensures(Run::with_log_every, (run, v), r) ==> r.log_every == v && (Run {
                log_every: run.log_every,
                ..r
            }) == run,
        forall|v: usize, r: Run| #[trigger]
            call_ensures(Run::with_eval_every, (run, v), r) ==> r.eval_every == v && (Run {
                eval_every: run.eval_every,
                ..r
            }) == run,
        forall|v: usize, r: Run| #[trigger]
            call_ensures(Run::with_eval_batches, (run, v), r) ==> r.eval_batches == v && (Run {
                eval_batches: run.eval_batches,
                ..r
            }) == run,
        forall|v: usize, r: Run| #[trigger]
            call_ensures(Run::with_save_every, (run, v), r) ==> r.save_every == v && (Run {
                save_every: run.save_every,
                ..r
            }) == run,
{
}

/// A model widens its states by a whole factor, and has as many heads as go into
/// that width; its block is made as the model is, with a norm on its output.
pub proof fn blocks_are_made_as_their_models(m: Model, inner: usize, heads: usize, b: Mamba)
    requires
        call_ensures(Model::d_inner, (&m,), inner),
        call_ensures(Model::n_heads, (&m,), heads),
        call_ensures(Model::mamba, (&m,), b),
        m.head_dim > 0,
    ensures
        math::goes_into(m.d_model as int, inner as int, m.expand as int),
        heads * m.head_dim <= inner < (heads + 1) * m.head_dim,
        b.d_model == m.d_model,
        b.state_rank == m.state_rank,
        b.expand == m.expand,
        b.per_head_dim == m.head_dim,
        b.ngroups == m.n_groups,
        b.mimo_rank == m.mimo_rank,
        b.rope_fraction == m.rope_fraction,
        b.has_outproj_norm,
{
    let (i, p, h) = (inner as int, m.head_dim as int, heads as int);
    vstd::arithmetic::div_mod::lemma_fundamental_div_mod(i, p);
    vstd::arithmetic::div_mod::lemma_mod_bound(i, p);
    assert(p * h == h * p) by (nonlinear_arith);
    assert((h + 1) * p == h * p + p) by (nonlinear_arith);
}

/// The presets are one family: all of them double their width, rotate half of their
/// state, tie their embeddings unless they are large, and differ in what their
/// sizes call for.
pub proof fn presets_are_one_family(preset: Preset, m: Model, new: Model)
    requires
        call_ensures(Preset::config, (preset,), m),
        call_ensures(Model::new, (m.vocab_size, m.d_model, m.n_layers), new),
    ensures
        m.expand == new.expand,
        m.rope_fraction == new.rope_fraction,
        m.ssd_chunk is None,
        m.z_loss == new.z_loss,
        m.tied_embeddings <==> !(preset is Base),
        m.ffn_mult == if preset is Tiny || preset is Base {
            new.ffn_mult
        } else {
            Decimal { digits: 2, exp: 0 }
        },
        m.attn_kv_heads == if preset is Base {
            2 * new.attn_kv_heads
        } else {
            new.attn_kv_heads as int
        },
        m.attn_heads * 64 == m.d_model || preset is FactorioNano || preset is Toy,
        preset is FactorioNano || preset is Toy ==> m.attn_heads * m.head_dim == m.d_model,
        m.n_groups == m.mimo_rank || preset is Toy,
        preset is FactorioNano <==> m.attn_window is None,
        preset is Tiny ==> (m.vocab_size, m.d_model, m.n_layers) == (32_768usize, 640usize, 24usize)
            && m.attn_period == Some(6usize) && m.n_groups == 2 && m.seq_len == new.seq_len
            && m.state_rank == new.state_rank && m.head_dim == new.head_dim && m.attn_window
            == new.attn_window,
        preset is TinyTurbo ==> (m.vocab_size, m.d_model, m.n_layers) == (
            32_768usize,
            640usize,
            12usize,
        ) && m.attn_period == Some(5usize) && m.n_groups == 1 && 2 * m.seq_len == new.seq_len && 2
            * m.state_rank == new.state_rank && m.head_dim == new.head_dim && 4 * m.attn_window->0
            == m.seq_len,
        preset is Base ==> (m.vocab_size, m.d_model, m.n_layers) == (
            32_768usize,
            1536usize,
            28usize,
        ) && m.attn_period == Some(7usize) && m.n_groups == 4 && m.seq_len == new.seq_len
            && m.state_rank == new.state_rank && m.head_dim == new.head_dim && m.attn_window
            == new.attn_window,
        preset is FactorioNano ==> (m.vocab_size, m.d_model, m.n_layers) == (
            495usize,
            192usize,
            8usize,
        ) && m.attn_period == Some(4usize) && m.n_groups == 1 && m.seq_len == 512 && m.state_rank
            == 32 && m.head_dim == 32,
        preset is Toy ==> (m.vocab_size, m.d_model, m.n_layers) == (64usize, 32usize, 4usize)
            && m.attn_period == Some(2usize) && m.n_groups == 1 && m.mimo_rank == 2 && m.seq_len
            == 16 && m.state_rank == 8 && m.head_dim == 8 && m.attn_window == Some(8usize),
{
}

/// The constructors of the presets, and the family of blueprint models, make the
/// presets.
pub proof fn constructors_make_the_presets(
    tiny: Model,
    base: Model,
    turbo: Model,
    toy: Model,
    nano: Model,
    sized: Model,
    preset: Preset,
    m: Model,
)
    requires
        call_ensures(Model::tiny, (), tiny),
        call_ensures(Model::base, (), base),
        call_ensures(Model::tiny_turbo, (), turbo),
        call_ensures(Model::toy, (), toy),
        call_ensures(crate::config::factorio::nano, (), nano),
        call_ensures(
            crate::config::factorio::Size::model,
            (crate::config::factorio::Size::Nano,),
            sized,
        ),
        call_ensures(Preset::config, (preset,), m),
    ensures
        preset is Tiny ==> m == tiny,
        preset is Base ==> m == base,
        preset is TinyTurbo ==> m == turbo,
        preset is Toy ==> m == toy,
        preset is FactorioNano ==> m == nano,
        sized == nano,
{
}

/// The default recipe sees about twenty tokens for each parameter of the smallest
/// language model, and its schedule has its parts in proportion.
pub proof fn the_default_recipe_is_in_proportion(run: Run)
    requires
        call_ensures(Run::new, (), run),
    ensures
        run.steps == 12_500,
        run.micro_batch * run.accum == 128,
        run.accum == 2 * run.micro_batch,
        5 * run.decay == run.steps,
        run.warmup == 400,
        run.eval_every == 50 * run.log_every,
        run.save_every == 2 * run.eval_every,
        run.log_every == run.eval_batches,
        run.eval_batches == 20,
        run.lr == (Decimal { digits: 3, exp: -3 as i32 }),
        run.lr_floor == run.weight_decay,
        run.weight_decay == (Decimal { digits: 1, exp: -1 as i32 }),
        run.clip == (Decimal { digits: 1, exp: 0 }),
        run.muon,
        run.checkpointing,
        run.ssd_mode is None,
        run.head_dtype is None,
        run.ffn_dtype is None,
        run.mamba_dtype is None,
        run.seed == 1337,
{
    assert(run.micro_batch == 8 && run.accum == 16);
}

/// A mistake is told by the numbers that are at odds, in the order in which they are
/// named.
pub proof fn mistakes_are_told_by_their_numbers(mistake: Invalid, r: String)
    requires
        call_ensures(Invalid::message, (&mistake,), r),
    ensures
        match mistake {
            Invalid::OddStateRank(n) => r@ == "state_rank "@ + text::decimal(n as nat)
                + " is odd, RoPE pairs dimensions"@,
            Invalid::HeadDim { head_dim, d_inner } => r@ == "head_dim "@ + text::decimal(
                head_dim as nat,
            ) + " does not divide d_inner "@ + text::decimal(d_inner as nat),
            Invalid::Groups { groups, heads } => r@ == "n_groups "@ + text::decimal(groups as nat)
                + " does not divide "@ + text::decimal(heads as nat) + " SSM heads"@,
            Invalid::MimoRank => r@ == "mimo_rank must be at least 1"@,
            Invalid::AttnHeads { heads, d_model } => r@ == "attn_heads "@ + text::decimal(
                heads as nat,
            ) + " does not divide d_model "@ + text::decimal(d_model as nat),
            Invalid::KvHeads { kv, heads } => r@ == "attn_kv_heads "@ + text::decimal(kv as nat)
                + " does not divide attn_heads "@ + text::decimal(heads as nat),
        },
{
}

/// What a machine word can hold can be counted: the parameters where their sum and
/// the widths that it is made of fit, twenty tokens for each where those fit too,
/// and the operations of a token where wide integers hold them.
pub proof fn what_fits_can_be_counted(m: Model, r: bool, run: bool, flops: bool)
    requires
        call_ensures(Model::is_countable, (&m,), r),
        call_ensures(Model::is_run_countable, (&m,), run),
        call_ensures(Model::is_flops_countable, (&m,), flops),
        m.head_dim > 0,
        m.attn_heads > 0,
    ensures
        r ==> m.weights() <= usize::MAX,
        run <==> r && 20 * m.weights() <= usize::MAX,
        ({
            let inner = m.expand * m.d_model;
            &&& m.weights() <= usize::MAX
            &&& m.ffn() <= usize::MAX
            &&& inner <= usize::MAX
            &&& m.mamba_of().in_width() <= usize::MAX
            &&& m.attn_kv_heads * m.attn_head() <= usize::MAX
            &&& 2 * m.n_layers + 1 <= usize::MAX
        }) ==> r,
        flops ==> m.flops() <= u128::MAX,
        ({
            let inner = m.expand * m.d_model;
            &&& m.flops() <= u128::MAX
            &&& m.ffn() <= usize::MAX
            &&& inner <= usize::MAX
            &&& m.mamba_of().in_width() + inner <= usize::MAX
            &&& m.heads() * m.head_dim * m.state_rank <= usize::MAX
        }) ==> flops,
{
}

} // verus!
