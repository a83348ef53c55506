//! Which half of the model each optimizer sees, and the loss scale.
//!
//! Muon orthogonalises the update of a hidden matrix. What it cannot do is
//! anything that is not a matrix, and the embedding and the head are out by
//! meaning: their rows are tokens, and a step touches only the tokens in the
//! batch. Those stay on AdamW.

use vstd::prelude::*;

use crate::text;

verus! {

/// A power of two.
pub open spec fn pow2(n: nat) -> nat
    decreases n,
{
    if n == 0 {
        1
    } else {
        2 * pow2((n - 1) as nat)
    }
}

/// Dynamic loss scale for the reduced-precision paths.
///
/// A non-finite step is discarded before either optimizer sees it. The scale
/// then halves and the caller retries the same deterministic batch. A long
/// clean window grows it again, bounded at both ends.
#[derive(Debug, Clone, Copy, PartialEq, Eq, Structural)]
pub struct DynamicLossScaler {
    pub scale: u32,
    pub finite_steps: usize,
    pub growth_interval: usize,
}

impl DynamicLossScaler {
    pub const INITIAL: u32 = 1024;

    pub const MIN: u32 = 1;

    pub const MAX: u32 = 65536;

    /// The scale is a power of two within its bounds, and the window is not
    /// over.
    pub open spec fn well_formed(self) -> bool {
        &&& Self::MIN <= self.scale <= Self::MAX
        &&& is_power(self.scale as nat)
        &&& self.finite_steps < self.growth_interval
    }

    /// The initial scale, grown after every `growth_interval` clean steps.
    pub fn new(growth_interval: usize) -> (r: Self)
        requires
            growth_interval > 0,
        ensures
            r == (DynamicLossScaler { scale: Self::INITIAL, finite_steps: 0, growth_interval }),
            r.well_formed(),
    {
        proof {
            reveal_with_fuel(pow2, 11);
            assert(pow2(10) == 1024);
        }
        DynamicLossScaler { scale: Self::INITIAL, finite_steps: 0, growth_interval }
    }

    /// A scaler that was kept, if it can be one.
    pub fn restore(scale: u32, finite_steps: usize, growth_interval: usize) -> (r: Option<Self>)
        ensures
            match r {
                Some(s) => s == (DynamicLossScaler { scale, finite_steps, growth_interval })
                    && s.well_formed(),
                None => !(DynamicLossScaler { scale, finite_steps, growth_interval }).well_formed(),
            },
    {
        if scale < Self::MIN || scale > Self::MAX || finite_steps >= growth_interval {
            return None;
        }
        let mut power: u32 = 1;
        let mut n: u32 = 0;
        assert(pow2(0) == 1);
        while power < scale
            invariant
                n <= 16,
                power == pow2(n as nat),
                1 <= power,
                scale <= 65536,
                power < 2 * scale,
                forall|k: nat| k < n ==> #[trigger] pow2(k) < scale,
            decreases 131072 - power,
        {
            power = power * 2;
            n = n + 1;
            proof {
                if n == 17 {
                    reveal_with_fuel(pow2, 18);
                }
            }
        }
        if power == scale {
            assert(is_power(scale as nat));
            Some(DynamicLossScaler { scale, finite_steps, growth_interval })
        } else {
            proof {
                assert forall|k: nat| #[trigger] pow2(k) != scale by {
                    if k >= n {
                        pow2_grows(n as nat, k);
                    }
                }
            }
            None
        }
    }

    /// The factor that the loss is scaled by.
    pub fn scale(&self) -> (r: u32)
        ensures
            r == self.scale,
    {
        self.scale
    }

    /// The scaler after a step.
    pub open spec fn updated(self, finite: bool) -> Self {
        if finite {
            if self.finite_steps + 1 == self.growth_interval {
                DynamicLossScaler {
                    scale: if 2 * self.scale <= Self::MAX {
                        (2 * self.scale) as u32
                    } else {
                        Self::MAX
                    },
                    finite_steps: 0,
                    ..self
                }
            } else {
                DynamicLossScaler { finite_steps: (self.finite_steps + 1) as usize, ..self }
            }
        } else {
            DynamicLossScaler {
                scale: if self.scale / 2 >= Self::MIN {
                    self.scale / 2
                } else {
                    Self::MIN
                },
                finite_steps: 0,
                ..self
            }
        }
    }

    /// Take note of a step, whose gradients were finite or not.
    pub fn update(&mut self, finite: bool)
        requires
            old(self).well_formed(),
        ensures
            *final(self) == old(self).updated(finite),
            final(self).well_formed(),
    {
        proof {
            updates_stay_bounded(*self, finite);
        }
        if finite {
            self.finite_steps = self.finite_steps + 1;
            if self.finite_steps == self.growth_interval {
                self.scale = if 2 * self.scale <= Self::MAX {
                    2 * self.scale
                } else {
                    Self::MAX
                };
                self.finite_steps = 0;
            }
        } else {
            self.scale = if self.scale / 2 >= Self::MIN {
                self.scale / 2
            } else {
                Self::MIN
            };
            self.finite_steps = 0;
        }
    }
}

/// `n` is a power of two.
pub open spec fn is_power(n: nat) -> bool {
    exists|k: nat| #[trigger] pow2(k) == n
}

proof fn pow2_grows(a: nat, b: nat)
    requires
        a <= b,
    ensures
        pow2(a) <= pow2(b),
        pow2(a) >= 1,
    decreases b,
{
    if a < b {
        pow2_grows(a, (b - 1) as nat);
    } else if a > 0 {
        pow2_grows((a - 1) as nat, (b - 1) as nat);
    }
}

/// Whatever happens, the scale stays a power of two within its bounds.
pub proof fn updates_stay_bounded(scaler: DynamicLossScaler, finite: bool)
    requires
        scaler.well_formed(),
    ensures
        scaler.updated(finite).well_formed(),
{
    let k = choose|k: nat| #[trigger] pow2(k) == scaler.scale;
    reveal_with_fuel(pow2, 18);
    assert(pow2(16) == 65536);
    assert(pow2(0) == 1);
    assert(pow2((k + 1) as nat) == 2 * pow2(k));
    if k > 0 {
        assert(pow2(k) == 2 * pow2((k - 1) as nat));
    }
}

/// The scaler after `n` clean steps.
pub open spec fn after_clean(scaler: DynamicLossScaler, n: nat) -> DynamicLossScaler
    decreases n,
{
    if n == 0 {
        scaler
    } else {
        after_clean(scaler, (n - 1) as nat).updated(true)
    }
}

/// A clean window doubles the scale, up to its bound, and opens the next
/// window; before it is over the scale stands still.
pub proof fn a_clean_window_grows_the_scale(scaler: DynamicLossScaler, n: nat)
    requires
        scaler.well_formed(),
        scaler.finite_steps == 0,
        n <= scaler.growth_interval,
    ensures
        n < scaler.growth_interval ==> after_clean(scaler, n) == (DynamicLossScaler {
            finite_steps: n as usize,
            ..scaler
        }),
        n == scaler.growth_interval ==> after_clean(scaler, n) == (DynamicLossScaler {
            scale: if 2 * scaler.scale <= DynamicLossScaler::MAX {
                (2 * scaler.scale) as u32
            } else {
                DynamicLossScaler::MAX
            },
            ..scaler
        }),
    decreases n,
{
    if n > 0 {
        a_clean_window_grows_the_scale(scaler, (n - 1) as nat);
    }
}

/// What is known of a parameter of the model.
pub struct Parameter {
    /// Where it stands in the model.
    pub path: String,
    /// How many dimensions it has.
    pub dims: usize,
    /// What the optimizers know it by, where they do.
    pub id: Option<u64>,
}

/// A path names a matrix whose rows are tokens.
pub open spec fn names_vocab(path: Seq<char>) -> bool {
    text::contains(path, "embed"@) || text::contains(path, "head"@)
}

/// Whether a parameter path names a matrix whose rows are tokens.
pub fn vocab(path: &str) -> (r: bool)
    ensures
        r == names_vocab(path@),
{
    text::has(path, "embed") || text::has(path, "head")
}

/// Muon may step a parameter: it is two-dimensional, and not the vocabulary.
pub open spec fn is_hidden(p: Parameter) -> bool {
    p.dims == 2 && !names_vocab(p.path@)
}

/// The ids of the parameters that Muon may step, in order.
pub open spec fn hidden_ids(parameters: Seq<Parameter>) -> Seq<u64>
    decreases parameters.len(),
{
    if parameters.len() == 0 {
        Seq::empty()
    } else {
        let p = parameters.last();
        if is_hidden(p) && p.id is Some {
            hidden_ids(parameters.drop_last()).push(p.id->0)
        } else {
            hidden_ids(parameters.drop_last())
        }
    }
}

/// The parameters Muon steps: the two-dimensional weights that are not the
/// vocabulary, or none where it is switched off.
pub fn hidden(parameters: &Vec<Parameter>, muon: bool) -> (r: Vec<u64>)
    ensures
        r@ == if muon {
            hidden_ids(parameters@)
        } else {
            Seq::empty()
        },
{
    let mut out: Vec<u64> = Vec::new();
    if !muon {
        return out;
    }
    let mut i: usize = 0;
    while i < parameters.len()
        invariant
            i <= parameters.len(),
            out@ == hidden_ids(parameters@.take(i as int)),
        decreases parameters.len() - i,
    {
        assert(parameters@.take(i + 1).drop_last() =~= parameters@.take(i as int));
        let p = &parameters[i];
        if p.dims == 2 && !vocab(p.path.as_str()) {
            if let Some(id) = p.id {
                out.push(id);
            }
        }
        i = i + 1;
    }
    assert(parameters@.take(i as int) =~= parameters@);
    out
}

/// The split is a partition: Muon steps the parameters that have an id, two
/// dimensions and a path outside the vocabulary, and no others.
pub proof fn muon_takes_the_hidden_matrices(parameters: Seq<Parameter>, i: int)
    requires
        0 <= i < parameters.len(),
        parameters[i].id is Some,
        forall|a: int, b: int|
            0 <= a < b < parameters.len() && parameters[a].id is Some
                ==> (#[trigger] parameters[a]).id != (#[trigger] parameters[b]).id,
    ensures
        hidden_ids(parameters).contains(parameters[i].id->0) <==> is_hidden(parameters[i]),
    decreases parameters.len(),
{
    let rest = parameters.drop_last();
    let id = parameters[i].id->0;
    hidden_ids_have_owners(rest, id);
    if i == parameters.len() - 1 {
        if hidden_ids(rest).contains(id) {
            let k = choose|k: int|
                0 <= k < rest.len() && is_hidden(#[trigger] rest[k]) && rest[k].id == Some(id);
            assert(parameters[k].id == parameters[i].id);
        }
        if is_hidden(parameters[i]) {
            assert(hidden_ids(parameters)[hidden_ids(rest).len() as int] == id);
        }
    } else {
        assert forall|a: int, b: int|
            0 <= a < b < rest.len() && rest[a].id is Some implies (#[trigger] rest[a]).id != (
        #[trigger] rest[b]).id by {
            assert(parameters[a].id != parameters[b].id);
        }
        muon_takes_the_hidden_matrices(rest, i);
        assert(rest[i] == parameters[i]);
        assert(parameters[i].id != parameters[parameters.len() - 1].id);
        if hidden_ids(rest).contains(id) {
            let k = choose|k: int| 0 <= k < hidden_ids(rest).len() && hidden_ids(rest)[k] == id;
            assert(hidden_ids(parameters)[k] == id);
        }
        if hidden_ids(parameters).contains(id) {
            let k = choose|k: int|
                0 <= k < hidden_ids(parameters).len() && hidden_ids(parameters)[k] == id;
            assert(k < hidden_ids(rest).len());
            assert(hidden_ids(rest)[k] == id);
        }
    }
}

proof fn hidden_ids_have_owners(parameters: Seq<Parameter>, id: u64)
    ensures
        hidden_ids(parameters).contains(id) ==> exists|k: int|
            0 <= k < parameters.len() && is_hidden(#[trigger] parameters[k]) && parameters[k].id
                == Some(id),
    decreases parameters.len(),
{
    if parameters.len() > 0 && hidden_ids(parameters).contains(id) {
        let rest = parameters.drop_last();
        hidden_ids_have_owners(rest, id);
        let k = choose|k: int|
            0 <= k < hidden_ids(parameters).len() && hidden_ids(parameters)[k] == id;
        if k < hidden_ids(rest).len() {
            assert(hidden_ids(rest)[k] == id);
            let j = choose|j: int|
                0 <= j < rest.len() && is_hidden(#[trigger] rest[j]) && rest[j].id == Some(id);
            assert(parameters[j] == rest[j]);
        } else {
            assert(parameters[parameters.len() - 1].id == Some(id));
        }
    }
}

/// A step with a gradient that is not finite halves the scale, down to its bound,
/// and opens a new window. A finite one is counted, and the one that completes the
/// window doubles the scale, up to its bound. The window keeps its length.
pub proof fn scales_halve_and_double(finite: bool)
    ensures
        forall|s: &mut DynamicLossScaler|
            s.well_formed() && #[trigger] call_ensures(DynamicLossScaler::update, (s, finite), ())
                ==> {
                &&& final(s).growth_interval == s.growth_interval
                &&& !finite ==> final(s).finite_steps == 0
                &&& !finite && s.scale == 1 ==> final(s).scale == 1
                &&& !finite && s.scale > 1 ==> 2 * final(s).scale == s.scale
                &&& finite && s.finite_steps + 1 < s.growth_interval ==> final(s).scale == s.scale
                    && final(s).finite_steps == s.finite_steps + 1
                &&& finite && s.finite_steps + 1 == s.growth_interval ==> final(s).finite_steps == 0
                &&& finite && s.finite_steps + 1 == s.growth_interval && s.scale == 65536
                    ==> final(s).scale == 65536
                &&& finite && s.finite_steps + 1 == s.growth_interval && s.scale < 65536
                    ==> final(s).scale == 2 * s.scale
            },
{
    assert forall|s: &mut DynamicLossScaler|
        s.well_formed() && #[trigger] call_ensures(
            DynamicLossScaler::update,
            (s, finite),
            (),
        ) implies {
        &&& !finite && s.scale > 1 ==> 2 * final(s).scale == s.scale
        &&& finite && s.finite_steps + 1 == s.growth_interval && s.scale < 65536 ==> final(s).scale
            == 2 * s.scale
    } by {
        let k = choose|k: nat| #[trigger] pow2(k) == s.scale;
        reveal_with_fuel(pow2, 18);
        if k > 0 {
            assert(pow2(k) == 2 * pow2((k - 1) as nat));
        }
        if k >= 16 {
            pow2_grows(16, k);
        } else {
            pow2_grows(k, 15);
        }
    }
}

proof fn powers_are(n: nat)
    ensures
        pow2(n) == vstd::arithmetic::power::pow(2, n),
    decreases n,
{
    if n == 0 {
        vstd::arithmetic::power::lemma_pow0(2);
    } else {
        powers_are((n - 1) as nat);
        reveal(vstd::arithmetic::power::pow);
    }
}

/// A scaler that was kept comes back as it was if its scale is a power of two from
/// 1 to 65536 and its window is not over, and not otherwise.
pub proof fn kept_scalers_come_back(
    scale: u32,
    finite_steps: usize,
    growth_interval: usize,
    r: Option<DynamicLossScaler>,
)
    requires
        call_ensures(DynamicLossScaler::restore, (scale, finite_steps, growth_interval), r),
    ensures
        r is Some <==> {
            &&& 1 <= scale <= 65536
            &&& exists|k: nat| #[trigger] vstd::arithmetic::power::pow(2, k) == scale
            &&& finite_steps < growth_interval
        },
        r matches Some(s) ==> s.scale == scale && s.finite_steps == finite_steps
            && s.growth_interval == growth_interval,
{
    if is_power(scale as nat) {
        let k = choose|k: nat| #[trigger] pow2(k) == scale as nat;
        powers_are(k);
    }
    if exists|k: nat| #[trigger] vstd::arithmetic::power::pow(2, k) == scale {
        let k = choose|k: nat| #[trigger] vstd::arithmetic::power::pow(2, k) == scale;
        powers_are(k);
        assert(pow2(k) == scale as nat);
    }
}

/// A new scaler starts at 1024, at the start of a window.
pub proof fn scalers_start_a_window(growth_interval: usize, r: DynamicLossScaler)
    requires
        call_ensures(DynamicLossScaler::new, (growth_interval,), r),
    ensures
        r.scale == 1024,
        r.finite_steps == 0,
        r.growth_interval == growth_interval,
{
}

/// Muon steps this parameter: it has an id and two dimensions, and neither
/// `embed` nor `head` stands anywhere in its path.
pub open spec fn is_stepped(p: Parameter) -> bool {
    &&& p.id is Some
    &&& p.dims == 2
    &&& forall|at: int|
        0 <= at && at + 5 <= p.path@.len() ==> #[trigger] p.path@.subrange(at, at + 5) != "embed"@
    &&& forall|at: int|
        0 <= at && at + 4 <= p.path@.len() ==> #[trigger] p.path@.subrange(at, at + 4) != "head"@
}

proof fn stepped_is_hidden(p: Parameter)
    ensures
        is_stepped(p) <==> is_hidden(p) && p.id is Some,
{
    reveal_strlit("embed");
    reveal_strlit("head");
    assert("embed"@.len() == 5);
    assert("head"@.len() == 4);
    let path = p.path@;
    if text::contains(path, "embed"@) {
        let at = choose|at: int| text::stands_at(path, "embed"@, at);
        assert(path.subrange(at, at + 5) == "embed"@);
    } else {
        assert forall|at: int| 0 <= at && at + 5 <= path.len() implies #[trigger] path.subrange(
            at,
            at + 5,
        ) != "embed"@ by {
            assert(!text::stands_at(path, "embed"@, at));
        }
    }
    if text::contains(path, "head"@) {
        let at = choose|at: int| text::stands_at(path, "head"@, at);
        assert(path.subrange(at, at + 4) == "head"@);
    } else {
        assert forall|at: int| 0 <= at && at + 4 <= path.len() implies #[trigger] path.subrange(
            at,
            at + 4,
        ) != "head"@ by {
            assert(!text::stands_at(path, "head"@, at));
        }
    }
}

proof fn hidden_places(parameters: Seq<Parameter>) -> (at: Seq<int>)
    ensures
        at.len() == hidden_ids(parameters).len(),
        forall|i: int, j: int| 0 <= i < j < at.len() ==> #[trigger] at[i] < #[trigger] at[j],
        forall|i: int|
            0 <= i < at.len() ==> {
                &&& 0 <= #[trigger] at[i] < parameters.len()
                &&& is_stepped(parameters[at[i]])
                &&& parameters[at[i]].id == Some(hidden_ids(parameters)[i])
            },
        forall|k: int|
            0 <= k < parameters.len() && is_stepped(#[trigger] parameters[k]) ==> at.contains(k),
    decreases parameters.len(),
{
    if parameters.len() == 0 {
        Seq::empty()
    } else {
        let rest = parameters.drop_last();
        let n = rest.len() as int;
        let before = hidden_places(rest);
        let p = parameters.last();
        stepped_is_hidden(p);
        assert forall|i: int| 0 <= i < before.len() implies parameters[#[trigger] before[i]]
            == rest[before[i]] by {}
        let at = if is_hidden(p) && p.id is Some {
            before.push(n)
        } else {
            before
        };
        assert forall|k: int|
            0 <= k < parameters.len() && is_stepped(#[trigger] parameters[k]) implies at.contains(
            k,
        ) by {
            if k < n {
                assert(is_stepped(rest[k]));
                let i = choose|i: int| 0 <= i < before.len() && before[i] == k;
                assert(at[i] == k);
            } else {
                assert(at[before.len() as int] == k);
            }
        }
        assert forall|i: int| 0 <= i < at.len() implies {
            &&& 0 <= #[trigger] at[i] < parameters.len()
            &&& is_stepped(parameters[at[i]])
            &&& parameters[at[i]].id == Some(hidden_ids(parameters)[i])
        } by {
            if i < before.len() {
                assert(at[i] == before[i]);
                assert(is_stepped(rest[before[i]]));
            }
        }
        at
    }
}

/// Muon steps the matrices outside the vocabulary, each once and in their order,
/// and nothing else; switched off, it steps nothing. `at` says where they stand.
pub proof fn muon_steps_the_hidden_matrices_in_order(
    parameters: Vec<Parameter>,
    muon: bool,
    r: Vec<u64>,
) -> (at: Seq<int>)
    requires
        call_ensures(hidden, (&parameters, muon), r),
    ensures
        !muon ==> r@.len() == 0,
        muon ==> {
            &&& at.len() == r@.len()
            &&& forall|i: int, j: int| 0 <= i < j < at.len() ==> #[trigger] at[i] < #[trigger] at[j]
            &&& forall|i: int|
                0 <= i < at.len() ==> {
                    &&& 0 <= #[trigger] at[i] < parameters@.len()
                    &&& is_stepped(parameters@[at[i]])
                    &&& parameters@[at[i]].id == Some(r@[i])
                }
            &&& forall|k: int|
                0 <= k < parameters@.len() && is_stepped(#[trigger] parameters@[k]) ==> at.contains(
                    k,
                )
        },
{
    hidden_places(parameters@)
}

/// A path names the vocabulary where `embed` or `head` stands anywhere in it.
pub proof fn vocabularies_are_embeddings_and_heads(path: &str, r: bool)
    requires
        call_ensures(vocab, (path,), r),
    ensures
        r <==> (exists|before: Seq<char>, after: Seq<char>| #[trigger] (before + "embed"@ + after)
            == path@) || (exists|before: Seq<char>, after: Seq<char>| #[trigger] (before + "head"@
            + after) == path@),
{
    text::contained_is_between(path@, "embed"@);
    text::contained_is_between(path@, "head"@);
}

} // verus!
