use quasar::config::{FfnDtype, HeadDtype, MambaDtype, Model};
use quasar::decimal::Decimal;
use quasar::model::chunked_loss::{chunks, Shapes, DEFAULT_CHUNK};
use quasar::model::head::{head_shape, logits_dims, HeadShape};
use quasar::train::checkpoint;
use quasar::train::checkpoint::{dir, latest, resolve, step_at, Entry, State};
use quasar::train::optim::{hidden, vocab, DynamicLossScaler, Parameter};
use quasar::train::run::{due, trace_every, Attempt, Error, Run, Training};
use quasar::train::ui;
use quasar::train::ui::{Event, Metric, Report, Validation};

fn entries(paths: &[(&str, bool)]) -> Vec<Entry> {
    paths
        .iter()
        .map(|(path, has_state)| Entry { path: path.to_string(), has_state: *has_state })
        .collect()
}

#[test]
fn latest_picks_the_highest_step() {
    let (two, eleven) = (dir("run", 2), dir("run", 11));

    let found = latest(&entries(&[(&eleven, true), (&two, true), ("run/zzz", false)]));

    assert_eq!(found.unwrap(), dir("run", 11));
    assert_eq!(eleven, "run/step_0000011");
    assert_eq!(dir("run", 12_345_678), "run/step_12345678");
    assert_eq!(latest(&entries(&[("run/zzz", false)])), None);
}

#[test]
fn the_most_advanced_checkpoint_has_the_highest_step() {
    let newest = |a: usize, b: usize| {
        latest(&entries(&[(&dir("run", a), true), (&dir("run", b), true)])).unwrap()
    };
    assert_eq!(newest(9, 10), dir("run", 10));
    assert_eq!(newest(9_999_999, 999), dir("run", 9_999_999));
    assert_eq!(newest(1_000_000, 10_000_000), dir("run", 10_000_000));
    // Past seven digits the names no longer sort as their steps do.
    assert_eq!(newest(9_999_999, 10_000_000), dir("run", 10_000_000));
    assert_eq!(newest(usize::MAX, 5), dir("run", usize::MAX));
}

#[test]
fn a_name_spells_a_step_or_none() {
    assert_eq!(step_at("run/step_0000011"), Some(11));
    assert_eq!(step_at("run/step_007/"), Some(7));
    for path in ["run/step_", "run/step_+5", "run/step_5a", "run/stop_5", "run/..", "step_18446744073709551616"] {
        assert_eq!(step_at(path), None, "{path}");
    }
}

#[test]
fn the_last_name_is_the_latest_unless_it_spells_a_step() {
    let newest = |paths: &[&str]| {
        let held: Vec<(&str, bool)> = paths.iter().map(|path| (*path, true)).collect();
        latest(&entries(&held)).unwrap()
    };
    assert_eq!(newest(&["run/zzz", "run/step_3", "run/aaa"]), "run/zzz");
    assert_eq!(newest(&["run/step_3", "run/aaa"]), "run/step_3");
    assert_eq!(newest(&["run/aaa", "run/step_9999999", "run/step_10000000"]), "run/step_10000000");
    assert_eq!(newest(&["run/step_9999999", "run/step_10000000", "run/step_last"]), "run/step_last");
    assert_eq!(newest(&["run/b", "run/a"]), "run/b");
    assert_eq!(newest(&["run/step_07", "run/step_7"]), "run/step_7");
}

#[test]
fn a_run_resolves_to_its_newest_checkpoint_and_a_checkpoint_to_itself() {
    let run = "run";
    let held = entries(&[(&dir(run, 10), true), (&dir(run, 200), true), ("run/model.json", false)]);

    let newest = resolve(run, false, None, &held).unwrap();
    let asked = resolve(&dir(run, 10), true, Some(run.to_string()), &Vec::new()).unwrap();

    assert_eq!(newest.dir, dir(run, 200));
    assert_eq!(newest.root, run);
    // Scoring a run over time depends on this: the config lives in the run
    // directory, not in the checkpoint that was named.
    assert_eq!(asked.dir, dir(run, 10));
    assert_eq!(asked.root, run);
    assert!(resolve(run, false, None, &entries(&[("run/model.json", false)])).is_none());
    assert_eq!(resolve("step", true, None, &Vec::new()).unwrap().root, "step");
}

#[test]
fn checkpoint_errors_say_what_is_wrong() {
    assert_eq!(checkpoint::Error::Io("gone".to_string()).message(), "gone");
    assert_eq!(checkpoint::Error::Store("torn".to_string()).message(), "burnpack: torn");
}

#[test]
fn muon_takes_the_matrices_and_leaves_the_vocabulary() {
    let parameters: Vec<Parameter> = [
        ("embed.weight", 2, Some(1)),
        ("blocks.0.norm_mix.gamma", 1, Some(2)),
        ("blocks.0.mix.in_proj.weight", 2, Some(3)),
        ("blocks.0.mix.bias", 3, Some(4)),
        ("head.weight", 2, Some(5)),
        ("blocks.0.ffn.down.weight", 2, None),
        ("blocks.1.ffn.down.weight", 2, Some(7)),
    ]
    .into_iter()
    .map(|(path, dims, id)| Parameter { path: path.to_string(), dims, id })
    .collect();

    let taken = hidden(&parameters, true);

    for parameter in &parameters {
        let matrix = parameter.dims == 2;
        if let Some(id) = parameter.id {
            assert_eq!(taken.contains(&id), matrix && !vocab(&parameter.path));
        }
    }
    assert_eq!(taken, [3, 7]);
    assert!(hidden(&parameters, false).is_empty());
    assert!(vocab("x.embedding") && vocab("overhead") && !vocab("blocks.0.ffn"));
}

#[test]
fn loss_scaler_backs_off_and_grows_after_a_clean_window() {
    let mut scaler = DynamicLossScaler::new(2);
    assert_eq!(scaler.scale(), 1024);

    scaler.update(false);
    assert_eq!(scaler.scale(), 512);
    scaler.update(true);
    assert_eq!(scaler.scale(), 512);
    scaler.update(true);
    assert_eq!(scaler.scale(), 1024);
}

#[test]
fn the_loss_scale_stays_within_its_bounds() {
    let mut scaler = DynamicLossScaler::new(1);
    for _ in 0..40 {
        scaler.update(true);
    }
    assert_eq!(scaler.scale(), DynamicLossScaler::MAX);
    for _ in 0..40 {
        scaler.update(false);
    }
    assert_eq!(scaler.scale(), DynamicLossScaler::MIN);
    assert_eq!(DynamicLossScaler::restore(512, 3, 200).unwrap().finite_steps, 3);
    assert!(DynamicLossScaler::restore(65536, 0, 1).is_some());
    assert!(DynamicLossScaler::restore(500, 0, 1).is_none());
    assert!(DynamicLossScaler::restore(0, 0, 1).is_none());
    assert!(DynamicLossScaler::restore(131072, 0, 1).is_none());
    assert!(DynamicLossScaler::restore(512, 1, 1).is_none());
}

#[test]
fn default_tiny_recipe_uses_a_compute_efficient_token_budget() {
    let run = Run::new();
    let tokens = run.steps as u64
        * run.micro_batch as u64
        * run.accum as u64
        * Model::tiny().seq_len as u64;

    // A 162.5M-parameter model needs roughly 20 tokens per parameter.
    assert!((3_000_000_000..=3_500_000_000).contains(&tokens), "{tokens} tokens");
    assert_eq!(tokens, 3_276_800_000);
}

#[test]
fn a_disabled_period_never_comes_due() {
    assert!(!due(41, 0));
    assert!(due(41, 42) && due(83, 42) && !due(42, 42) && due(7, 1));
}

#[test]
fn tracing_is_read_from_the_environment() {
    assert_eq!(trace_every(None), 0);
    assert_eq!(trace_every(Some(" 10\n")), 10);
    assert_eq!(trace_every(Some("yes")), 1);
    assert_eq!(trace_every(Some("")), 1);
    assert_eq!(trace_every(Some("-3")), 1);
    assert_eq!(trace_every(Some("0")), 0);
    assert_eq!(trace_every(Some("+4")), 4);
}

fn short_run() -> Run {
    Run::new()
        .with_steps(2)
        .with_micro_batch(2)
        .with_accum(2)
        .with_warmup(1)
        .with_decay(1)
        .with_log_every(1)
        .with_eval_every(0)
        .with_save_every(0)
        .with_eval_batches(1)
}

#[test]
fn a_short_run_leaves_a_resumable_checkpoint() {
    let cfg = Model::toy();
    let mut training = Training::begin(&cfg, &short_run(), 64, None).unwrap();
    let mut drawn = Vec::new();
    while let Some(attempt) = training.next() {
        assert!(attempt.logging);
        assert_eq!(attempt.loss_scale, None);
        drawn.extend((0..2).map(|micro| training.draw(micro)));
        assert!(training.settle(false).unwrap(), "without a scale every step is taken");
        let duties = training.duties(2);
        assert!(duties.log && !duties.eval && !duties.save);
        assert_eq!(duties.trace, training.state.step == 2);
        training.logged(true, Vec::new()).unwrap();
    }
    assert_eq!(drawn, [0, 1, 2, 3]);
    assert_eq!(training.ending(false), Some(2));
    let left = dir("out", training.ending(false).unwrap());
    assert_eq!(latest(&entries(&[(&left, true)])).unwrap(), dir("out", 2));
    assert_eq!(training.state.tokens, 2 * 2 * 2 * 16);

    let again = Training::begin(&cfg, &short_run(), 64, Some(training.state)).unwrap();
    assert_eq!(again.next(), None);
}

#[test]
fn a_short_fp16_projection_run_leaves_a_finite_resumable_checkpoint() {
    let run = short_run().with_head_dtype(Some(HeadDtype::F16)).with_ffn_dtype(Some(FfnDtype::F16));
    let mut training = Training::begin(&Model::toy(), &run, 64, None).unwrap();
    while let Some(attempt) = training.next() {
        assert_eq!(attempt.loss_scale, Some(DynamicLossScaler::INITIAL));
        assert!(training.settle(true).unwrap());
        training.logged(true, Vec::new()).unwrap();
    }
    let left = dir("out", training.ending(false).unwrap());
    assert_eq!(latest(&entries(&[(&left, true)])).unwrap(), dir("out", 2));
    assert_eq!(training.state.step, 2);
    assert_eq!(training.state.loss_scaler.unwrap().scale(), DynamicLossScaler::INITIAL);
}

#[test]
fn a_run_that_is_stopped_leaves_a_checkpoint_too() {
    let mut training = Training::begin(&Model::toy(), &short_run(), 64, None).unwrap();
    assert_eq!(training.ending(false), None);
    assert_eq!(training.ending(true), Some(0));
    training.settle(false).unwrap();
    assert_eq!(training.ending(false), None);
    assert_eq!(training.ending(true), Some(1));
}

#[test]
fn a_resumed_run_finishes_what_is_left() {
    let cfg = Model::toy();
    let run = short_run().with_steps(5);
    let finish = |state: Option<State>| {
        let mut training = Training::begin(&cfg, &run, 64, state).unwrap();
        let mut drawn = Vec::new();
        while training.next().is_some() {
            drawn.extend((0..2).map(|micro| training.draw(micro)));
            training.settle(false).unwrap();
        }
        (drawn, training.ending(false), training.state.tokens)
    };
    let whole = finish(None);
    let rest = finish(Some(State { step: 2, tokens: 2 * 64, loss_scaler: None }));
    assert_eq!(whole, ((0..10).collect(), Some(5), 5 * 64));
    assert_eq!(rest, ((4..10).collect(), Some(5), 5 * 64));
    assert_eq!(finish(Some(State { step: 9, tokens: 7, loss_scaler: None })), (vec![], Some(9), 7));
}

#[test]
fn a_resumed_run_replays_its_draws() {
    let cfg = Model::toy();
    let state = State { step: 1, tokens: 64, loss_scaler: None };
    let resumed = Training::begin(&cfg, &short_run(), 64, Some(state)).unwrap();
    assert_eq!((resumed.draw(0), resumed.draw(1)), (2, 3));
    assert_eq!(resumed.next().unwrap().step, 1);
}

#[test]
fn a_discarded_step_is_tried_again_on_the_same_draws() {
    let run = short_run().with_head_dtype(Some(HeadDtype::F16)).with_ffn_dtype(Some(FfnDtype::F16));
    let mut training = Training::begin(&Model::toy(), &run, 64, None).unwrap();
    let attempt = Attempt { step: 0, logging: true, loss_scale: Some(1024) };
    assert_eq!(training.next(), Some(attempt));

    assert!(!training.settle(false).unwrap());

    assert_eq!(training.next(), Some(Attempt { loss_scale: Some(512), ..attempt }));
    assert_eq!(training.draw(1), 1);
    assert!(training.settle(true).unwrap());
    assert!(training.settle(true).unwrap());
    assert_eq!(training.next(), None);
    assert_eq!(training.state.step, 2);
    assert_eq!(training.state.loss_scaler.unwrap().scale(), 512);
    assert_eq!(training.state.loss_scaler.unwrap().finite_steps, 2);
}

#[test]
fn a_run_without_a_usable_scale_stops() {
    let run = short_run().with_mamba_dtype(Some(MambaDtype::F16));
    let mut training = Training::begin(&Model::toy(), &run, 64, None).unwrap();
    for _ in 0..10 {
        assert!(!training.settle(false).unwrap());
    }
    let error = training.settle(false).unwrap_err();
    assert!(matches!(error, Error::NonfiniteGradient { step: 1, loss_scale: 1 }));
    assert_eq!(
        error.message(),
        "training produced non-finite gradients at step 1 with minimum loss scale 1; the update \
         was discarded"
    );
    assert_eq!(training.state.step, 0);
}

#[test]
fn a_kept_loss_scale_is_resumed() {
    let run = short_run().with_head_dtype(Some(HeadDtype::F16));
    let scaler = DynamicLossScaler::restore(256, 7, 200);
    let state = State { step: 1, tokens: 64, loss_scaler: scaler };
    let resumed = Training::begin(&Model::toy(), &run, 64, Some(state)).unwrap();
    assert_eq!(resumed.next().unwrap().loss_scale, Some(256));
    let plain = Training::begin(&Model::toy(), &short_run(), 64, Some(state)).unwrap();
    assert_eq!(plain.next().unwrap().loss_scale, None);
    assert_eq!(plain.state.loss_scaler, None);
}

#[test]
fn a_run_that_comes_apart_stops_instead_of_finishing_green() {
    let run = short_run().with_lr(Decimal { digits: 1, exp: 30 });
    let mut training = Training::begin(&Model::toy(), &run, 64, None).unwrap();
    training.settle(true).unwrap();
    training.logged(true, Vec::new()).unwrap();
    training.settle(true).unwrap();

    let error = training
        .logged(false, vec!["a".to_string(), "b".to_string(), "c".to_string()])
        .unwrap_err();

    assert_eq!(
        error.message(),
        "training diverged at step 2: the loss is not a number.\n3 tensors are not finite, from a \
         through c\nlower --lr, lengthen --warmup, or take the hidden matrices off Muon with \
         --muon false"
    );
    let Error::Diverged { step, params } = error else {
        panic!("another error");
    };
    assert_eq!(step, 2);
    // And it says which tensors went, rather than only that something did.
    assert!(!params.is_empty(), "nothing was reported as non-finite");
    let none = training.logged(false, Vec::new()).unwrap_err().message();
    assert!(none.contains("every parameter is still finite, so the loss came apart in the forward"));
    let one = training.logged(false, vec!["a".to_string()]).unwrap_err().message();
    assert!(one.contains("1 tensors are not finite, from a\n"));
}

#[test]
fn shards_of_another_vocabulary_are_refused() {
    let error = Training::begin(&Model::toy(), &short_run(), 65, None).unwrap_err();
    assert!(matches!(error, Error::Vocab { config: 64, shards: 65 }));
    assert_eq!(error.message(), "model vocabulary 64 does not match the shards' 65");
}

#[test]
fn seams_are_named() {
    let run = Run::new();
    assert!(!run.is_reduced());
    assert_eq!(run.seams(), "");
    let head = run.with_head_dtype(Some(HeadDtype::F16));
    assert_eq!(head.seams(), "output head");
    let both = head.with_ffn_dtype(Some(FfnDtype::F16));
    assert_eq!(both.seams(), "output head + FFN projections");
    assert_eq!(run.with_ffn_dtype(Some(FfnDtype::F16)).seams(), "FFN projections");
    let all = both.with_mamba_dtype(Some(MambaDtype::F16));
    assert_eq!(all.seams(), "output head + FFN projections + Mamba projections");
}

#[test]
fn loss_and_progress_reach_the_burn_renderer() {
    let mut seen: Vec<Event<f64>> = ui::opening(100, 40);
    seen.extend(ui::train(
        41,
        Report {
            loss: 2.5,
            lr: 3e-3,
            throughput: 12_345.0,
            tokens: 65_536.0,
            eta_hours: 12.0,
            tflops: 13.5,
        },
    ));
    seen.extend(ui::valid(Validation {
        nll: 2.0,
        perplexity: 2.0_f64.exp(),
        bits_per_byte: 0.75,
    }));
    seen.push(Event::End);

    assert_eq!(
        seen.iter()
            .filter_map(|event| match event {
                Event::Register(metric) => Some(metric.definition().name),
                _ => None,
            })
            .collect::<Vec<_>>(),
        [
            "Loss",
            "Perplexity",
            "Bits per byte",
            "Learning rate",
            "Throughput",
            "Tokens",
            "ETA",
            "Effective compute",
        ]
    );
    assert!(seen.contains(&Event::Progress(40)), "resume position is rendered");
    assert!(seen.contains(&Event::Progress(41)), "new step is rendered");
    assert!(seen.contains(&Event::Train(Metric::Loss, 2.5)), "training loss is rendered");
    assert!(seen.contains(&Event::Valid(Metric::Loss, 2.0)), "validation loss is rendered");
    assert!(seen.contains(&Event::End));
    let throughput = Metric::Throughput.definition();
    assert_eq!(throughput.unit, Some("tok/s"));
    assert!(throughput.higher_is_better);
    assert_eq!(throughput.precision, 0);
}

#[test]
fn chunks_cover_every_position_once() {
    assert_eq!(chunks(10, 4), [(0, 4), (4, 8), (8, 10)]);
    assert_eq!(chunks(8, 4), [(0, 4), (4, 8)]);
    assert_eq!(chunks(3, DEFAULT_CHUNK), [(0, 3)]);
    assert!(chunks(0, 4).is_empty());
    let shapes = Shapes { hidden: (2, 3, 8), weight: (16, 8), targets: (2, 3) };
    assert!(shapes.agree());
    assert_eq!(shapes.positions(), 6);
    assert!(!Shapes { weight: (16, 7), ..shapes }.agree());
    assert!(!Shapes { targets: (2, 4), ..shapes }.agree());
}

#[test]
fn a_head_takes_what_ends_in_a_matrix() {
    assert_eq!(
        head_shape(&vec![2, 3, 8], &vec![16, 8]),
        Some(HeadShape { rows: 6, hidden: 8, vocab: 16 })
    );
    assert_eq!(head_shape(&vec![2, 3, 8], &vec![16, 9]), None);
    assert_eq!(head_shape(&vec![8], &vec![16, 8]), None);
    assert_eq!(head_shape(&vec![3, 8], &vec![16, 8, 1]), None);
    assert_eq!(logits_dims(&vec![2, 3, 8], 16), [2, 3, 16]);
}
