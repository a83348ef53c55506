use quasar::config::factorio::Size;
use quasar::config::{FfnDtype, HeadDtype, MambaDtype, Model, SsdMode};
use quasar::decimal::Decimal;
use quasar::preset::{Overrides, Precision, Preset, Shape};
use quasar::prompts::{asks, Ask};
use quasar::train::run::Run;

const NO_SHAPE: Shape = Shape {
    seq_len: None,
    state_rank: None,
    mimo_rank: None,
    expand: None,
    attn_window: None,
    attn_period: None,
    ssd_chunk: None,
};

const NO_OVERRIDES: Overrides = Overrides {
    steps: None,
    micro_batch: None,
    accum: None,
    lr: None,
    warmup: None,
    decay: None,
    seed: None,
    save_every: None,
    eval_every: None,
    log_every: None,
    muon: None,
    checkpointing: None,
    ssd: None,
    head_dtype: None,
    ffn_dtype: None,
    mamba_dtype: None,
};

fn value(d: Decimal) -> f64 {
    d.digits as f64 * 10f64.powi(d.exp)
}

#[test]
fn only_the_measured_presets_leave_the_training_defaults() {
    let turbo = Preset::TinyTurbo.run_defaults();

    assert_eq!(turbo.ssd_mode, Some(SsdMode::Serial));
    assert_eq!((turbo.micro_batch, turbo.accum), (4, 32));
    assert!(!turbo.checkpointing);

    let nano = Preset::FactorioNano.run_defaults();

    assert_eq!(nano.ssd_mode, Some(SsdMode::Serial));
    assert_eq!((nano.micro_batch, nano.accum), (32, 1));
    assert!(!nano.checkpointing);
    // The schedule has to fit inside the run it is scheduling.
    assert!(nano.warmup + nano.decay < nano.steps);
    // And it runs under the shared peak rate, which this preset diverged at.
    assert!(value(nano.lr) < value(Run::new().lr), "{} is back on the edge", value(nano.lr));
    // And the run has to be long enough to be worth reading: 20 tokens per
    // parameter, the floor that everything is derived from.
    let cfg = Preset::FactorioNano.config();
    let seen = nano.steps * nano.micro_batch * nano.accum * cfg.seq_len;
    assert!(seen >= cfg.chinchilla_tokens(), "{seen} tokens is short");

    for preset in [Preset::Tiny, Preset::Base, Preset::Toy] {
        let run = preset.run_defaults();
        assert_eq!(run.ssd_mode, None);
        assert_eq!((run.micro_batch, run.accum), (8, 16));
        assert!(run.checkpointing);
    }
}

#[test]
fn the_measured_recipes_are_spelled_out() {
    let turbo = Preset::TinyTurbo.run_defaults();
    assert_eq!(turbo.head_dtype, Some(HeadDtype::F16));
    assert_eq!(turbo.ffn_dtype, Some(FfnDtype::F16));
    assert_eq!(turbo.mamba_dtype, Some(MambaDtype::F16));
    let nano = Preset::FactorioNano.run_defaults();
    assert_eq!(
        (nano.steps, nano.warmup, nano.decay, nano.eval_every, nano.save_every, nano.log_every),
        (4299, 214, 859, 214, 1074, 71)
    );
    assert_eq!(nano.lr, Decimal { digits: 15, exp: -4 });
    assert_eq!(nano.head_dtype, None);
}

/// Every member of the Factorio family is reachable from the command line.
#[test]
fn the_factorio_family_is_spelled_out_in_the_preset_list() {
    let names: Vec<_> = Preset::ALL.iter().map(|preset| preset.name().to_string()).collect();

    for size in Size::ALL {
        assert!(names.contains(&size.name().to_string()), "{} is not a preset", size.name());
    }
    assert_eq!(Preset::FactorioNano.config(), Size::Nano.model());
    assert_eq!(names, ["tiny", "tiny-turbo", "base", "factorio-nano", "toy"]);
}

#[test]
fn a_shape_turns_the_knobs_it_names() {
    let tiny = Model::tiny();
    assert_eq!(NO_SHAPE.apply(tiny), tiny);
    let shape = Shape {
        seq_len: Some(512),
        state_rank: Some(64),
        mimo_rank: Some(1),
        expand: Some(3),
        attn_window: Some(0),
        attn_period: Some(0),
        ssd_chunk: Some(32),
    };
    let cfg = shape.apply(tiny);
    assert_eq!((cfg.seq_len, cfg.state_rank, cfg.mimo_rank, cfg.expand), (512, 64, 1, 3));
    assert_eq!((cfg.attn_window, cfg.attn_period, cfg.ssd_chunk), (None, None, Some(32)));
    let shape = Shape { attn_window: Some(9), attn_period: Some(3), ..NO_SHAPE };
    let cfg = shape.apply(tiny);
    assert_eq!((cfg.attn_window, cfg.attn_period), (Some(9), Some(3)));
}

#[test]
fn an_override_turns_the_knobs_it_names() {
    let turbo = Preset::TinyTurbo.run_defaults();
    assert_eq!(NO_OVERRIDES.apply(turbo), turbo);
    let run = Overrides {
        steps: Some(7),
        lr: Some(Decimal { digits: 2, exp: -3 }),
        seed: Some(5),
        muon: Some(false),
        checkpointing: Some(true),
        ssd: Some(SsdMode::Minimal),
        head_dtype: Some(Precision::Fp32),
        ffn_dtype: Some(Precision::F16),
        ..NO_OVERRIDES
    }
    .apply(turbo);
    assert_eq!(run.steps, 7);
    assert_eq!(run.lr, Decimal { digits: 2, exp: -3 });
    assert_eq!(run.seed, 5);
    assert!(!run.muon && run.checkpointing);
    assert_eq!(run.ssd_mode, Some(SsdMode::Minimal));
    assert_eq!(run.head_dtype, None);
    assert_eq!(run.ffn_dtype, Some(FfnDtype::F16));
    assert_eq!(run.mamba_dtype, turbo.mamba_dtype);
    assert_eq!((run.micro_batch, run.accum), (4, 32));
}

#[test]
fn prompts_are_read_from_jsonl_or_from_plain_lines() {
    let text =
        "{\"prompt\": \"<bp> <spec>\", \"spec\": {\"kind\": \"belt-lane\"}}\n\n<bp> plain\n";

    let asked = asks("prompts.jsonl", text).unwrap();

    assert_eq!(asked.len(), 2, "the blank line is not a prompt");
    assert_eq!(asked[0].prompt, "<bp> <spec>");
    // Carried through, so a grader keeps the spec that produced the prompt.
    assert!(asked[0].says("spec"));
    assert_eq!(asked[1].prompt, "<bp> plain");
    assert!(asked[1].record.is_empty());
}

#[test]
fn a_prompt_file_that_says_nothing_is_an_error_not_an_empty_sweep() {
    assert!(asks("prompts.jsonl", "\n \n").is_err());
    let error = asks("prompts.jsonl", "").err().unwrap();
    assert_eq!(error.message(), "no prompts in prompts.jsonl");
}

#[test]
fn a_bad_prompt_names_its_line() {
    let message = |text: &str| asks("p", text).err().unwrap().message();
    assert_eq!(message("a\r\n\r\n{torn\n{}"), "p:3 is not a json object");
    assert_eq!(message("a\n{\"prompt\": 3}"), "p:2 has no `prompt` string");
    let asked = asks("p", " one \r\n two").unwrap();
    assert_eq!(asked[0].prompt, "one");
    assert_eq!(asked[1].prompt, "two");
}

#[test]
fn an_answer_keeps_what_the_record_said() {
    let asked = asks("p", "{\"prompt\": \"go\", \"id\": \"x\", \"n\": 4}").unwrap();

    let line = asked[0].answer("go on").unwrap();

    assert_eq!(line, r#"{"id":"x","n":4,"prompt":"go","text":"go on"}"#);
    assert_eq!(asked[0].said("id").as_deref(), Some("x"));
    let spec = r#"{"deep":{"list":[1,-2.5,null,true]},"prompt":"go","text":"old"}"#;
    assert_eq!(
        asks("p", spec).unwrap()[0].answer("new").unwrap(),
        r#"{"deep":{"list":[1,-2.5,null,true]},"prompt":"go","text":"new"}"#
    );
    assert_eq!(asked[0].said("n"), None);
    let plain = Ask::plain("go".to_string());
    assert!(!plain.says("prompt"));
    assert_eq!(plain.answer("gone").unwrap(), r#"{"prompt":"go","text":"gone"}"#);
}
