//! What a training dashboard is told.
//!
//! The values are whatever the caller measures in; what is here is which of them
//! are shown, under which names, and in which order.

use vstd::prelude::*;

verus! {

/// A quantity on the dashboard.
#[derive(Debug, Clone, Copy, PartialEq, Eq, Structural)]
pub enum Metric {
    Loss,
    Perplexity,
    BitsPerByte,
    LearningRate,
    Throughput,
    Tokens,
    Eta,
    Compute,
}

/// How a quantity is shown.
#[derive(Debug, Clone, Copy)]
pub struct Definition {
    pub name: &'static str,
    pub unit: Option<&'static str>,
    pub higher_is_better: bool,
    /// Digits behind the decimal point.
    pub precision: usize,
}

/// How a quantity is shown, by its values.
pub open spec fn shown(metric: Metric) -> (Seq<char>, Option<Seq<char>>, bool, usize) {
    match metric {
        Metric::Loss => ("Loss"@, None, false, 4),
        Metric::Perplexity => ("Perplexity"@, None, false, 2),
        Metric::BitsPerByte => ("Bits per byte"@, Some("bpb"@), false, 4),
        Metric::LearningRate => ("Learning rate"@, None, false, 3),
        Metric::Throughput => ("Throughput"@, Some("tok/s"@), true, 0),
        Metric::Tokens => ("Tokens"@, None, true, 0),
        Metric::Eta => ("ETA"@, Some("h"@), false, 1),
        Metric::Compute => ("Effective compute"@, Some("TFLOP/s"@), true, 2),
    }
}

/// The metrics, in the order in which they are registered.
pub open spec fn registered() -> Seq<Metric> {
    seq![
        Metric::Loss,
        Metric::Perplexity,
        Metric::BitsPerByte,
        Metric::LearningRate,
        Metric::Throughput,
        Metric::Tokens,
        Metric::Eta,
        Metric::Compute,
    ]
}

impl Metric {
    /// How the quantity is shown.
    pub fn definition(self) -> (r: Definition)
        ensures
            r.name@ == shown(self).0,
            match r.unit {
                Some(unit) => shown(self).1 == Some(unit@),
                None => shown(self).1 is None,
            },
            r.higher_is_better == shown(self).2,
            r.precision == shown(self).3,
    {
        let (name, unit, higher_is_better, precision): (
            &'static str,
            Option<&'static str>,
            bool,
            usize,
        ) = match self {
            Metric::Loss => ("Loss", None, false, 4),
            Metric::Perplexity => ("Perplexity", None, false, 2),
            Metric::BitsPerByte => ("Bits per byte", Some("bpb"), false, 4),
            Metric::LearningRate => ("Learning rate", None, false, 3),
            Metric::Throughput => ("Throughput", Some("tok/s"), true, 0),
            Metric::Tokens => ("Tokens", None, true, 0),
            Metric::Eta => ("ETA", Some("h"), false, 1),
            Metric::Compute => ("Effective compute", Some("TFLOP/s"), true, 2),
        };
        Definition { name, unit, higher_is_better, precision }
    }
}

/// Something that a dashboard is told.
#[derive(Debug, PartialEq, Eq)]
pub enum Event<T> {
    /// There is such a metric.
    Register(Metric),
    /// A run of so many optimizer steps starts.
    Start(usize),
    /// So many steps are done.
    Progress(usize),
    /// A training metric has a value.
    Train(Metric, T),
    /// A validation metric has a value.
    Valid(Metric, T),
    /// The run is over.
    End,
}

/// What a logging step measures.
pub struct Report<T> {
    pub loss: T,
    pub lr: T,
    pub throughput: T,
    pub tokens: T,
    pub eta_hours: T,
    pub tflops: T,
}

/// What a validation pass measures.
pub struct Validation<T> {
    pub nll: T,
    pub perplexity: T,
    pub bits_per_byte: T,
}

/// Every metric is registered before a run starts, and a resumed run starts
/// where it stands.
pub fn opening<T>(total_steps: usize, completed_steps: usize) -> (out: Vec<Event<T>>)
    ensures
        out@ == registered().map_values(|m: Metric| Event::<T>::Register(m)) + seq![
            Event::<T>::Start(total_steps),
            Event::<T>::Progress(completed_steps),
        ],
{
    let out: Vec<Event<T>> = vec![
        Event::Register(Metric::Loss),
        Event::Register(Metric::Perplexity),
        Event::Register(Metric::BitsPerByte),
        Event::Register(Metric::LearningRate),
        Event::Register(Metric::Throughput),
        Event::Register(Metric::Tokens),
        Event::Register(Metric::Eta),
        Event::Register(Metric::Compute),
        Event::Start(total_steps),
        Event::Progress(completed_steps),
    ];
    assert(out@ =~= registered().map_values(|m: Metric| Event::<T>::Register(m)) + seq![
        Event::<T>::Start(total_steps),
        Event::<T>::Progress(completed_steps),
    ]);
    out
}

/// What a dashboard is told of a logging step.
pub fn train<T>(step: usize, report: Report<T>) -> (out: Vec<Event<T>>)
    ensures
        out@ == seq![
            Event::Progress(step),
            Event::Train(Metric::Loss, report.loss),
            Event::Train(Metric::LearningRate, report.lr),
            Event::Train(Metric::Throughput, report.throughput),
            Event::Train(Metric::Tokens, report.tokens),
            Event::Train(Metric::Eta, report.eta_hours),
            Event::Train(Metric::Compute, report.tflops),
        ],
{
    let out: Vec<Event<T>> = vec![
        Event::Progress(step),
        Event::Train(Metric::Loss, report.loss),
        Event::Train(Metric::LearningRate, report.lr),
        Event::Train(Metric::Throughput, report.throughput),
        Event::Train(Metric::Tokens, report.tokens),
        Event::Train(Metric::Eta, report.eta_hours),
        Event::Train(Metric::Compute, report.tflops),
    ];
    out
}

/// What a dashboard is told of a validation pass.
pub fn valid<T>(report: Validation<T>) -> (out: Vec<Event<T>>)
    ensures
        out@ == seq![
            Event::Valid(Metric::Loss, report.nll),
            Event::Valid(Metric::Perplexity, report.perplexity),
            Event::Valid(Metric::BitsPerByte, report.bits_per_byte),
        ],
{
    let out: Vec<Event<T>> = vec![
        Event::Valid(Metric::Loss, report.nll),
        Event::Valid(Metric::Perplexity, report.perplexity),
        Event::Valid(Metric::BitsPerByte, report.bits_per_byte),
    ];
    out
}

/// A dashboard hears of every metric, once each, then how long the run is and where
/// it stands.
pub proof fn every_metric_is_registered_first<T>(
    total: usize,
    completed: usize,
    out: Vec<Event<T>>,
    metric: Metric,
)
    requires
        call_ensures(opening::<T>, (total, completed), out),
    ensures
        out@.len() == 10,
        exists|i: int| 0 <= i < 8 && #[trigger] out@[i] == Event::<T>::Register(metric),
        forall|i: int, j: int| 0 <= i < j < 8 ==> #[trigger] out@[i] != #[trigger] out@[j],
        out@[8] == Event::<T>::Start(total),
        out@[9] == Event::<T>::Progress(completed),
{
    let at: int = match metric {
        Metric::Loss => 0,
        Metric::Perplexity => 1,
        Metric::BitsPerByte => 2,
        Metric::LearningRate => 3,
        Metric::Throughput => 4,
        Metric::Tokens => 5,
        Metric::Eta => 6,
        Metric::Compute => 7,
    };
    assert(out@[at] == Event::<T>::Register(registered()[at]));
    assert forall|i: int, j: int| 0 <= i < j < 8 implies #[trigger] out@[i] != #[trigger] out@[j] by {
        assert(out@[i] == Event::<T>::Register(registered()[i]));
        assert(out@[j] == Event::<T>::Register(registered()[j]));
    }
}

/// A logging step is told first, then each of its measurements under its own
/// metric; a validation pass is told by each of its own.
pub proof fn measurements_are_told_under_their_metrics<T>(
    step: usize,
    report: Report<T>,
    out: Vec<Event<T>>,
    validation: Validation<T>,
    told: Vec<Event<T>>,
)
    requires
        call_ensures(train::<T>, (step, report), out),
        call_ensures(valid::<T>, (validation,), told),
    ensures
        out@.len() == 7,
        out@[0] == Event::<T>::Progress(step),
        out@.contains(Event::Train(Metric::Loss, report.loss)),
        out@.contains(Event::Train(Metric::LearningRate, report.lr)),
        out@.contains(Event::Train(Metric::Throughput, report.throughput)),
        out@.contains(Event::Train(Metric::Tokens, report.tokens)),
        out@.contains(Event::Train(Metric::Eta, report.eta_hours)),
        out@.contains(Event::Train(Metric::Compute, report.tflops)),
        told@.len() == 3,
        told@.contains(Event::Valid(Metric::Loss, validation.nll)),
        told@.contains(Event::Valid(Metric::Perplexity, validation.perplexity)),
        told@.contains(Event::Valid(Metric::BitsPerByte, validation.bits_per_byte)),
{
    assert(out@[1] == Event::Train(Metric::Loss, report.loss));
    assert(out@[2] == Event::Train(Metric::LearningRate, report.lr));
    assert(out@[3] == Event::Train(Metric::Throughput, report.throughput));
    assert(out@[4] == Event::Train(Metric::Tokens, report.tokens));
    assert(out@[5] == Event::Train(Metric::Eta, report.eta_hours));
    assert(out@[6] == Event::Train(Metric::Compute, report.tflops));
    assert(told@[0] == Event::Valid(Metric::Loss, validation.nll));
    assert(told@[1] == Event::Valid(Metric::Perplexity, validation.perplexity));
    assert(told@[2] == Event::Valid(Metric::BitsPerByte, validation.bits_per_byte));
}

/// More is better of what a run gets done, and of nothing else that it measures;
/// what has a unit is a rate, a time or a ratio; and what counts whole things has
/// no digits behind the point.
pub proof fn metrics_are_shown_for_what_they_are(metric: Metric, r: Definition)
    requires
        call_ensures(Metric::definition, (metric,), r),
    ensures
        r.higher_is_better <==> metric is Throughput || metric is Tokens || metric is Compute,
        r.unit is Some <==> metric is BitsPerByte || metric is Throughput || metric is Eta
            || metric is Compute,
        r.precision == 0 <==> metric is Throughput || metric is Tokens,
        r.precision == 4 <==> metric is Loss || metric is BitsPerByte,
        metric is LearningRate <==> r.precision == 3,
        metric is Eta <==> r.precision == 1,
        metric is Perplexity || metric is Compute <==> r.precision == 2,
        r.name@ == match metric {
            Metric::Loss => "Loss"@,
            Metric::Perplexity => "Perplexity"@,
            Metric::BitsPerByte => "Bits per byte"@,
            Metric::LearningRate => "Learning rate"@,
            Metric::Throughput => "Throughput"@,
            Metric::Tokens => "Tokens"@,
            Metric::Eta => "ETA"@,
            Metric::Compute => "Effective compute"@,
        },
        metric is BitsPerByte ==> r.unit->0@ == "bpb"@,
        metric is Throughput ==> r.unit->0@ == "tok/s"@,
        metric is Eta ==> r.unit->0@ == "h"@,
        metric is Compute ==> r.unit->0@ == "TFLOP/s"@,
{
}

} // verus!
