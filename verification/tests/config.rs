use quasar::config::factorio::{chinchilla_steps, nano, Size, SEQ_LEN, VOCAB};
use quasar::config::{optimal_chunk_len, Invalid, Mamba, Mixer, Model, Rope, SsdMode};
use quasar::decimal::Decimal;

const SIXTEEN: u64 = 16 << 30;

#[test]
fn attention_lands_on_the_last_layer_of_each_period() {
    let cfg = Model::tiny().with_attn_period(Some(6));

    let mixers: Vec<_> = (0..12).map(|i| cfg.mixer(i)).collect();

    assert_eq!(mixers[0], Mixer::Ssm, "the layer reading embeddings stays an SSM");
    assert_eq!(mixers[5], Mixer::Attention);
    assert_eq!(mixers[11], Mixer::Attention);
}

#[test]
fn attention_has_its_share_of_the_stack() {
    for (layers, period) in [(24, 6), (28, 7), (12, 5), (8, 4), (3, 9)] {
        let cfg = Model::new(10, 10, layers).with_attn_period(Some(period));
        let attention = (0..layers).filter(|&i| cfg.mixer(i) == Mixer::Attention).count();
        assert_eq!(attention, layers / period);
    }
    let always = Model::tiny().with_attn_period(Some(1));
    assert_eq!(always.mixer(0), Mixer::Ssm, "layer 0 is always an SSM");
    assert!((1..always.n_layers).all(|i| always.mixer(i) == Mixer::Attention));
    assert_eq!(Model::toy().with_attn_period(None).mixer(1), Mixer::Ssm);
    assert_eq!(Model::toy().with_attn_period(Some(0)).mixer(1), Mixer::Ssm);
}

#[test]
fn tying_the_head_removes_a_vocab_matrix() {
    let cfg = Model::tiny();

    let saved = cfg.clone().with_tied_embeddings(false).budget().total
        - cfg.clone().with_tied_embeddings(true).budget().total;

    assert_eq!(saved, cfg.vocab_size * cfg.d_model);
}

#[test]
fn presets_stay_inside_their_size_class() {
    let (tiny, base) = (Model::tiny().budget().total, Model::base().budget().total);

    assert!((100e6..200e6).contains(&(tiny as f64)), "tiny is {tiny}");
    assert!((1.0e9..1.5e9).contains(&(base as f64)), "base is {base}");
}

#[test]
fn presets_validate() {
    Model::tiny().validate().unwrap();
    Model::base().validate().unwrap();
    Model::toy().validate().unwrap();
    Model::tiny_turbo().validate().unwrap();
}

#[test]
fn turbo_uses_the_measured_wide_shape() {
    let turbo = Model::tiny_turbo();

    assert_eq!((turbo.d_model, turbo.n_layers, turbo.attn_heads), (640, 12, 10));
    assert!((78_000_000..79_000_000).contains(&turbo.budget().total));
}

#[test]
fn turbo_is_the_smaller_and_cheaper_tiny() {
    let (tiny, turbo) = (Model::tiny(), Model::tiny_turbo());

    assert!(turbo.budget().total < tiny.budget().total);
    assert!(turbo.flops_per_token() < tiny.flops_per_token());
    assert!(
        turbo.activations(1).total * 4 < tiny.activations(1).total,
        "turbo {} vs tiny {}",
        turbo.activations(1).total,
        tiny.activations(1).total
    );
}

#[test]
fn a_window_narrower_than_the_sequence_scores_fewer_pairs() {
    let cfg = Model::tiny();
    let dense = cfg.clone().with_attn_window(None).attn_pairs();

    assert_eq!(dense, cfg.seq_len * cfg.seq_len);
    assert!(cfg.attn_pairs() < dense, "the default 1024 window");
    assert!(cfg.clone().with_attn_window(Some(256)).attn_pairs() * 4 < dense);
}

#[test]
fn pairs_are_counted_block_by_block() {
    // Blocks [0, 8) and [8, 16): 8 keys for the first, 8 + 7 for the second.
    assert_eq!(Model::toy().attn_pairs(), 8 * 8 + 8 * 15);
    assert_eq!(Model::toy().with_attn_window(Some(16)).attn_pairs(), 256);
    // A last block of one: [0, 5), [5, 10), [10, 15), [15, 16).
    let uneven = Model::toy().with_attn_window(Some(5));
    assert_eq!(uneven.attn_pairs(), 5 * 5 + 5 * 9 + 5 * 9 + 5);
    assert_eq!(Model::toy().with_attn_window(Some(1)).attn_pairs(), 16);
}

#[test]
fn activations_scale_with_the_micro_batch() {
    let cfg = Model::tiny();

    let (one, four) = (cfg.activations(1), cfg.activations(4));

    assert_eq!(four.total, 4 * one.total);
}

/// The `tiny` run that was reported held `micro_batch 1` and ran out of memory
/// above it. The estimate reproduces that for dense scores, and shows where the
/// window moves the line.
#[test]
fn the_estimate_reproduces_the_reported_ceiling() {
    let dense = Model::tiny().with_attn_window(None);

    assert_eq!(dense.micro_batch_within(SIXTEEN, 12), 1, "what was reported");
    assert_eq!(Model::tiny().micro_batch_within(SIXTEEN, 12), 2, "blocking the window");
    assert!(Model::tiny_turbo().micro_batch_within(SIXTEEN, 12) >= 8, "turbo leaves room");
}

#[test]
fn the_largest_micro_batch_fits_and_one_more_does_not() {
    for cfg in [Model::tiny(), Model::tiny_turbo(), nano()] {
        let states = cfg.budget().total as u128 * 12;
        let batch = cfg.micro_batch_within(SIXTEEN, 12);
        assert!(states + cfg.activations(batch).total <= SIXTEEN as u128);
        assert!(states + cfg.activations(batch + 1).total > SIXTEEN as u128);
    }
    assert_eq!(Model::base().micro_batch_within(SIXTEEN, 16), 0, "the states alone are over");
}

#[test]
fn the_ssd_chunk_divides_the_sequence() {
    for cfg in [Model::tiny(), Model::base(), Model::toy()] {
        let (chunk, seq) = (cfg.ssd_chunk_len(), cfg.seq_len);

        assert!(seq.is_multiple_of(chunk), "chunk {chunk} pads a {seq}-token sequence");
    }
}

#[test]
fn the_default_ssd_chunk_stays_under_burn_mambas_rule() {
    let cfg = Model::tiny();

    let rule = optimal_chunk_len(cfg.state_rank, cfg.head_dim);

    assert_eq!(rule, 96, "the rule of thumb for tiny");
    assert_eq!(cfg.ssd_chunk_len(), 64, "the largest divisor of 2048 below it");
}

#[test]
fn the_scan_rule_rounds_a_square_root_up() {
    assert_eq!(optimal_chunk_len(32, 32), 32);
    assert_eq!(optimal_chunk_len(1, 1), 32);
    assert_eq!(optimal_chunk_len(33, 32), 64);
    assert_eq!(optimal_chunk_len(64, 64), 64);
    assert_eq!(optimal_chunk_len(0, 64), 0);
}

#[test]
fn an_explicit_ssd_chunk_overrides_the_default() {
    assert_eq!(Model::tiny().with_ssd_chunk(Some(128)).ssd_chunk_len(), 128);
    assert_eq!(Model::tiny().with_ssd_chunk(Some(0)).ssd_chunk_len(), 1);
}

#[test]
fn an_odd_state_rank_is_rejected() {
    let cfg = Model::tiny().with_state_rank(63);

    assert_eq!(cfg.validate(), Err(Invalid::OddStateRank(63)));
}

#[test]
fn every_mistake_is_told() {
    let cases = [
        (
            Model::tiny().with_state_rank(63),
            Invalid::OddStateRank(63),
            "state_rank 63 is odd, RoPE pairs dimensions",
        ),
        (
            Model::tiny().with_head_dim(60),
            Invalid::HeadDim { head_dim: 60, d_inner: 1280 },
            "head_dim 60 does not divide d_inner 1280",
        ),
        (
            Model::tiny().with_n_groups(3),
            Invalid::Groups { groups: 3, heads: 20 },
            "n_groups 3 does not divide 20 SSM heads",
        ),
        (Model::tiny().with_mimo_rank(0), Invalid::MimoRank, "mimo_rank must be at least 1"),
        (
            Model::tiny().with_attn_heads(7),
            Invalid::AttnHeads { heads: 7, d_model: 640 },
            "attn_heads 7 does not divide d_model 640",
        ),
        (
            Model::tiny().with_attn_kv_heads(3),
            Invalid::KvHeads { kv: 3, heads: 10 },
            "attn_kv_heads 3 does not divide attn_heads 10",
        ),
    ];
    for (cfg, mistake, words) in cases {
        assert_eq!(cfg.validate(), Err(mistake));
        assert_eq!(mistake.message(), words);
    }
    // Without attention its heads do not matter.
    assert_eq!(Model::tiny().with_attn_period(None).with_attn_heads(7).validate(), Ok(()));
    assert_eq!(
        Model::tiny().with_head_dim(0).validate(),
        Err(Invalid::HeadDim { head_dim: 0, d_inner: 1280 })
    );
}

#[test]
fn the_feed_forward_width_is_rounded_to_whole_tiles() {
    assert_eq!(Model::tiny().d_ff(), 1600);
    assert_eq!(Model::toy().d_ff(), 64);
    let odd = Model::new(1, 100, 1).with_ffn_mult(Decimal { digits: 15, exp: -1 });
    assert_eq!(odd.d_ff(), 192, "150 in tiles of 64");
    let tiny = Model::new(1, 5, 1).with_ffn_mult(Decimal { digits: 1, exp: -50 });
    assert_eq!(tiny.d_ff(), 0);
    let wide = Model::new(1, 5, 1).with_ffn_mult(Decimal { digits: 2, exp: 2 });
    assert_eq!(wide.d_ff(), 1024);
}

#[test]
fn the_blocks_follow_the_model() {
    let tiny = Model::tiny();
    assert_eq!((tiny.d_inner(), tiny.n_heads()), (1280, 20));
    assert_eq!(
        tiny.mamba(),
        Mamba {
            d_model: 640,
            state_rank: 128,
            expand: 2,
            per_head_dim: 64,
            ngroups: 2,
            mimo_rank: 2,
            rope_fraction: Rope::Half,
            has_outproj_norm: true,
        }
    );
    assert_eq!(tiny.mamba().d_in_proj(), 2560 + 1024 + 60 + 32);
    assert_eq!(tiny.with_rope_fraction(Rope::All).mamba().d_in_proj(), 2560 + 1024 + 60 + 64);
    assert_eq!(tiny.with_rope_fraction(Rope::Off).mamba().d_in_proj(), 2560 + 1024 + 60);
    assert_eq!(SsdMode::default(), SsdMode::Recalculated);
}

/// The figures that the family is described by, each at the vocabulary that the
/// description assumes.
#[test]
fn the_budgets_are_the_published_ones() {
    let tiny = Model { vocab_size: 8192, ..Model::tiny() };
    assert_eq!(tiny.budget().total, 146_737_312);
    assert_eq!(tiny.flops_per_token(), 329_379_840);
    assert_eq!(tiny.activations(1).total, 7_105_609_728);
    assert_eq!(tiny.micro_batch_within(SIXTEEN, 12), 2);

    let turbo = Model { vocab_size: 8192, ..Model::tiny_turbo() };
    assert_eq!(turbo.budget().total, 62_625_936);
    assert_eq!(turbo.flops_per_token(), 129_751_040);
    assert_eq!(turbo.activations(1).total, 1_165_697_024);
    assert_eq!(turbo.micro_batch_within(SIXTEEN, 12), 14);

    let base = Model::base();
    assert_eq!(base.budget().total, 1_117_519_616);
    assert_eq!(base.flops_per_token(), 2_306_211_840);
    assert_eq!(base.activations(1).total, 26_280_722_432);
    assert_eq!(base.micro_batch_within(SIXTEEN, 12), 0);

    let nano = Model { vocab_size: 657, ..nano() };
    assert_eq!(nano.budget().total, 3_552_464);
    assert_eq!(nano.flops_per_token(), 8_168_832);
    assert_eq!(nano.activations(1).total, 126_750_720);
}

#[test]
fn the_parts_of_a_budget_are_what_they_are_spent_on() {
    let tiny = Model::tiny().budget();
    assert_eq!(tiny.embedding, 32_768 * 640);
    assert_eq!(tiny.head, 0);
    assert_eq!(tiny.ssm, 63_802_400);
    assert_eq!(tiny.attention, 3_932_672);
    assert_eq!(tiny.ffn, 73_728_000);
    assert_eq!(tiny.norms, 31_360);
    assert_eq!(tiny.total, 162_465_952);
    assert_eq!(Model::tiny().chinchilla_tokens(), 20 * 162_465_952);

    let toy = Model::toy();
    assert_eq!(toy.budget().total, 50_448);
    let kept = toy.activations(1);
    assert_eq!((kept.ssm, kept.attention, kept.ffn, kept.head), (129_280, 36_352, 98_304, 10_240));
    assert_eq!(toy.flops_per_token(), 107_776);
}

#[test]
fn every_member_of_the_family_is_buildable() {
    for size in Size::ALL {
        size.model()
            .validate()
            .unwrap_or_else(|error| panic!("{}: {}", size.name(), error.message()));
    }
}

#[test]
fn nano_matches_the_blueprint_corpus() {
    let cfg = nano();

    assert_eq!(cfg.vocab_size, VOCAB);
    assert!(cfg.seq_len >= SEQ_LEN);
    // Every entity already placed constrains the next one, so attention has to
    // reach back over a whole blueprint rather than a slice of one.
    assert_eq!(cfg.attn_window, None);
}

#[test]
fn nano_stays_the_size_the_harness_reports() {
    let total = nano().budget().total;

    assert!((3.0e6..4.0e6).contains(&(total as f64)), "nano is {total}");
}

#[test]
fn the_chinchilla_budget_is_twenty_tokens_a_parameter() {
    let cfg = nano();
    let batch = 32 * cfg.seq_len;

    let steps = chinchilla_steps(&cfg, batch);

    assert!(steps * batch >= 20 * cfg.budget().total, "{steps} steps of {batch} tokens");
    assert!((60e6..80e6).contains(&(cfg.chinchilla_tokens() as f64)));
    assert_eq!(steps, 4299);
    assert_eq!(chinchilla_steps(&cfg, 0), cfg.chinchilla_tokens());
}

#[test]
fn what_can_be_counted_is_told() {
    let counted = |cfg: &Model, batch: usize| {
        (cfg.is_countable(), cfg.is_flops_countable(), cfg.is_batch_measurable(batch))
    };
    for cfg in [Model::tiny(), Model::tiny_turbo(), Model::base(), Model::toy(), nano()] {
        assert_eq!(counted(&cfg, 4_096), (true, true, true));
        assert!(cfg.is_run_countable());
    }
    assert_eq!(counted(&Model::tiny().with_seq_len(0), 1), (true, true, false));
    assert_eq!(counted(&Model::tiny().with_attn_window(Some(0)), 1), (true, true, false));
    assert_eq!(counted(&Model::tiny().with_head_dim(0), 1), (false, false, false));
    assert_eq!(counted(&Model::tiny(), usize::MAX), (true, true, false));
    for exp in [18, i32::MAX] {
        let wide = Model::tiny().with_ffn_mult(Decimal { digits: 1, exp });
        assert_eq!(counted(&wide, 1), (false, false, false));
    }
    // Nothing is wrong with attention heads that no layer has.
    let pure = Model::tiny().with_attn_period(None).with_attn_heads(0);
    assert_eq!(counted(&pure, 1), (true, true, true));
    let huge = Model::new(1 << 40, 1 << 20, 1 << 10);
    assert_eq!((huge.is_countable(), huge.is_run_countable()), (true, false));
    assert_eq!(huge.budget().embedding, 1 << 60);
    assert!(!Model::new(1 << 40, 1 << 24, 1).is_countable());
}
