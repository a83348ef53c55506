//! Where the checkpoints of a run are, and where the run stands in each.

use vstd::prelude::*;

use crate::data::path;
use crate::text;
use crate::train::optim::DynamicLossScaler;

verus! {

/// Where a run stands, beside its weights.
#[derive(Debug, Clone, Copy, PartialEq, Eq, Structural)]
pub struct State {
    /// Optimizer steps already taken; the run resumes at this index.
    pub step: usize,
    pub tokens: u64,
    /// Kept because changing the loss scale across a resume changes the
    /// reduced-precision gradient path. Older checkpoints omit it.
    pub loss_scaler: Option<DynamicLossScaler>,
}

/// Why a checkpoint cannot be written or read.
#[derive(Debug)]
pub enum Error {
    Io(String),
    /// The weights are refused: a truncated write, or weights whose shapes no
    /// longer match the config.
    Store(String),
}

impl Error {
    /// The error in words.
    pub open spec fn words(self) -> Seq<char> {
        match self {
            Error::Io(error) => error@,
            Error::Store(message) => "burnpack: "@ + message@,
        }
    }

    /// The error in words.
    pub fn message(&self) -> (r: String)
        ensures
            r@ == self.words(),
    {
        let mut out = String::new();
        match self {
            Error::Io(error) => {
                out.append(error.as_str());
            },
            Error::Store(message) => {
                out.append("burnpack: ");
                out.append(message.as_str());
            },
        }
        assert(out@ =~= self.words());
        out
    }
}

/// How many digits the step of a checkpoint has at least.
pub const DIGITS: usize = 7;

/// The name of the checkpoint at `step`.
pub open spec fn name_of(step: nat) -> Seq<char> {
    "step_"@ + text::padded(step, DIGITS as nat)
}

/// The directory of the checkpoint at `step`.
pub open spec fn dir_of(root: Seq<char>, step: nat) -> Seq<char> {
    path::join(root, name_of(step))
}

/// The directory a checkpoint at `step` belongs in.
pub fn dir(root: &str, step: usize) -> (r: String)
    ensures
        r@ == dir_of(root@, step as nat),
{
    let mut name = String::new();
    name.append("step_");
    assert(name@ =~= "step_"@);
    text::push_padded(&mut name, step as u64, DIGITS);
    path::joined(root, name.as_str())
}

/// Something under the directory of a run.
pub struct Entry {
    pub path: String,
    /// Whether it holds the state of a run.
    pub has_state: bool,
}

/// The step that the name of a checkpoint spells: the number behind `step_`.
pub open spec fn named_step(name: Seq<char>) -> Option<nat> {
    if name.len() > 5 && name.take(5) == "step_"@ && text::all_digits(name.skip(5))
        && text::digits_value(name.skip(5)) <= u64::MAX {
        Some(text::digits_value(name.skip(5)))
    } else {
        None
    }
}

/// The step of a checkpoint, where its name spells one.
pub open spec fn step_of(path: Seq<char>) -> Option<nat> {
    match path::file_name(path) {
        Some(name) => named_step(name),
        None => None,
    }
}

/// The checkpoint at `a` is no more advanced than the one at `b`: its step is no
/// higher, and of two of one step its path comes no later.
pub open spec fn no_further(a: Seq<char>, b: Seq<char>) -> bool {
    match (step_of(a), step_of(b)) {
        (Some(x), Some(y)) => x < y || (x == y && path::path_le(a, b)),
        _ => false,
    }
}

/// There is a checkpoint at `path`.
pub open spec fn is_held(entries: Seq<Entry>, path: Seq<char>) -> bool {
    exists|i: int|
        0 <= i < entries.len() && (#[trigger] entries[i]).has_state && entries[i].path@ == path
}

/// There is a checkpoint among `entries`.
pub open spec fn holds_any(entries: Seq<Entry>) -> bool {
    exists|i: int| 0 <= i < entries.len() && (#[trigger] entries[i]).has_state
}

/// `path` is the last of the checkpoints among `entries`, in the order of paths.
pub open spec fn is_last(entries: Seq<Entry>, path: Seq<char>) -> bool {
    &&& is_held(entries, path)
    &&& forall|i: int|
        0 <= i < entries.len() && (#[trigger] entries[i]).has_state ==> path::path_le(
            entries[i].path@,
            path,
        )
}

/// `path` is the most advanced of the checkpoints among `entries` whose names spell
/// a step.
pub open spec fn is_furthest(entries: Seq<Entry>, path: Seq<char>) -> bool {
    &&& is_held(entries, path)
    &&& step_of(path) is Some
    &&& forall|i: int|
        0 <= i < entries.len() && (#[trigger] entries[i]).has_state && step_of(
            entries[i].path@,
        ) is Some ==> no_further(entries[i].path@, path)
}

/// `path` is the latest of the checkpoints among `entries`: the last one, or, where
/// its name spells a step, the one of the highest step, as names of more digits
/// than usual no longer sort as their steps do.
pub open spec fn is_latest(entries: Seq<Entry>, path: Seq<char>) -> bool {
    exists|last: Seq<char>| #[trigger]
        is_last(entries, last) && match step_of(last) {
            Some(_) => is_furthest(entries, path),
            None => path == last,
        }
}

/// The step of a checkpoint, where its name spells one.
pub fn step_at(path: &str) -> (r: Option<u64>)
    ensures
        match r {
            Some(step) => step_of(path@) == Some(step as nat),
            None => step_of(path@) is None,
        },
{
    let name = match path::file_name_of(path) {
        Some(name) => name,
        None => {
            return None;
        },
    };
    if name.len() <= 5 {
        return None;
    }
    let mut lead: Vec<char> = Vec::new();
    let mut i: usize = 0;
    while i < 5
        invariant
            i <= 5 < name.len(),
            lead@ == name@.take(i as int),
        decreases 5 - i,
    {
        lead.push(name[i]);
        i = i + 1;
        assert(lead@ =~= name@.take(i as int));
    }
    if !text::same_chars(&lead, &text::chars_of("step_")) {
        return None;
    }
    let ghost digits = name@.skip(5);
    assert(digits[0] == name@[5]);
    // A number here has no sign.
    if name[5] == '+' {
        return None;
    }
    assert(text::unsigned(digits) == digits);
    text::parse_number(&name, 5, u64::MAX)
}

proof fn no_further_chains(a: Seq<char>, b: Seq<char>, c: Seq<char>)
    requires
        no_further(a, b),
        no_further(b, c),
    ensures
        no_further(a, c),
{
    if path::path_le(a, b) && path::path_le(b, c) {
        path::path_order_chains(path::key(a), path::key(b), path::key(c));
    }
}

/// The most advanced checkpoint among what a run directory holds, if any.
pub fn latest(entries: &Vec<Entry>) -> (r: Option<String>)
    ensures
        match r {
            Some(path) => is_latest(entries@, path@),
            None => forall|i: int| 0 <= i < entries@.len() ==> !(#[trigger] entries@[i]).has_state,
        },
        r is Some <==> holds_any(entries@),
{
    let mut last: Option<usize> = None;
    let mut last_key: Vec<u32> = Vec::new();
    let mut best: Option<usize> = None;
    let mut best_step: u64 = 0;
    let mut best_key: Vec<u32> = Vec::new();
    let mut i: usize = 0;
    while i < entries.len()
        invariant
            i <= entries.len(),
            match last {
                Some(l) => {
                    &&& l < i
                    &&& entries@[l as int].has_state
                    &&& path::ranks(last_key@) == path::key(entries@[l as int].path@)
                    &&& forall|k: int|
                        0 <= k < i && (#[trigger] entries@[k]).has_state ==> path::path_le(
                            entries@[k].path@,
                            entries@[l as int].path@,
                        )
                },
                None => forall|k: int| 0 <= k < i ==> !(#[trigger] entries@[k]).has_state,
            },
            match best {
                Some(b) => {
                    &&& b < i
                    &&& entries@[b as int].has_state
                    &&& path::ranks(best_key@) == path::key(entries@[b as int].path@)
                    &&& step_of(entries@[b as int].path@) == Some(best_step as nat)
                    &&& forall|k: int|
                        0 <= k < i && (#[trigger] entries@[k]).has_state && step_of(
                            entries@[k].path@,
                        ) is Some ==> no_further(entries@[k].path@, entries@[b as int].path@)
                },
                None => forall|k: int|
                    0 <= k < i && (#[trigger] entries@[k]).has_state ==> step_of(
                        entries@[k].path@,
                    ) is None,
            },
        decreases entries.len() - i,
    {
        if entries[i].has_state {
            let ghost new = entries@[i as int].path@;
            let key = path::key_of(entries[i].path.as_str());
            let later = match last {
                Some(_) => path::keys_le(&last_key, &key),
                None => true,
            };
            proof {
                path::paths_compare(path::key(new), path::key(new));
                if let Some(l) = last {
                    let was = entries@[l as int].path@;
                    path::paths_compare(path::key(was), path::key(new));
                    assert forall|k: int|
                        0 <= k < i && (#[trigger] entries@[k]).has_state
                            && later implies path::path_le(entries@[k].path@, new) by {
                        path::path_order_chains(
                            path::key(entries@[k].path@),
                            path::key(was),
                            path::key(new),
                        );
                    }
                }
            }
            if let Some(step) = step_at(entries[i].path.as_str()) {
                let further = match best {
                    Some(_) => best_step < step || (best_step == step && path::keys_le(
                        &best_key,
                        &key,
                    )),
                    None => true,
                };
                proof {
                    if let Some(b) = best {
                        let was = entries@[b as int].path@;
                        path::paths_compare(path::key(was), path::key(new));
                        assert forall|k: int|
                            0 <= k < i && (#[trigger] entries@[k]).has_state && step_of(
                                entries@[k].path@,
                            ) is Some && further implies no_further(entries@[k].path@, new) by {
                            no_further_chains(entries@[k].path@, was, new);
                        }
                    }
                }
                if further {
                    best = Some(i);
                    best_step = step;
                    best_key = path::key_of(entries[i].path.as_str());
                }
            }
            if later {
                last = Some(i);
                last_key = key;
            }
        }
        i = i + 1;
    }
    match (last, best) {
        (Some(l), Some(b)) => {
            assert(is_last(entries@, entries@[l as int].path@));
            match step_at(entries[l].path.as_str()) {
                Some(_) => Some(entries[b].path.clone()),
                None => Some(entries[l].path.clone()),
            }
        },
        (Some(l), None) => {
            assert(is_last(entries@, entries@[l as int].path@));
            Some(entries[l].path.clone())
        },
        (None, _) => None,
    }
}

/// The directory of a checkpoint spells its step.
pub proof fn directories_spell_their_steps(root: Seq<char>, step: nat)
    requires
        step <= u64::MAX,
    ensures
        step_of(dir_of(root, step)) == Some(step),
{
    reveal_strlit("step_");
    text::padding_is_read_back(step, DIGITS as nat);
    let name = name_of(step);
    let digits = text::padded(step, DIGITS as nat);
    assert(name.len() > 5);
    assert forall|i: int| 0 <= i < name.len() implies name[i] != '/' by {
        if i >= 5 {
            assert(name[i] == digits[i - 5]);
        }
    }
    assert(name[0] == 's');
    assert(path::is_name(name));
    path::children_add_a_component(root, name);
    assert(path::components(dir_of(root, step)).last() == name);
    assert(name.take(5) =~= "step_"@);
    assert(name.skip(5) =~= digits);
}

/// Among the checkpoints of a run, whatever else its directory holds, the latest
/// is the one of the highest step.
pub proof fn the_latest_has_the_highest_step(
    root: Seq<char>,
    entries: Seq<Entry>,
    steps: Seq<nat>,
    path: Seq<char>,
    i: int,
)
    requires
        steps.len() == entries.len(),
        forall|k: int|
            0 <= k < entries.len() && (#[trigger] entries[k]).has_state ==> entries[k].path@
                == dir_of(root, steps[k]) && steps[k] <= u64::MAX,
        is_latest(entries, path),
        0 <= i < entries.len(),
        entries[i].has_state,
        forall|k: int|
            0 <= k < entries.len() && (#[trigger] entries[k]).has_state ==> steps[k] <= steps[i],
    ensures
        path == dir_of(root, steps[i]),
{
    let last = choose|last: Seq<char>| #[trigger]
        is_last(entries, last) && match step_of(last) {
            Some(_) => is_furthest(entries, path),
            None => path == last,
        };
    let l = choose|l: int|
        0 <= l < entries.len() && (#[trigger] entries[l]).has_state && entries[l].path@ == last;
    directories_spell_their_steps(root, steps[l]);
    let k = choose|k: int|
        0 <= k < entries.len() && (#[trigger] entries[k]).has_state && entries[k].path@ == path;
    directories_spell_their_steps(root, steps[k]);
    directories_spell_their_steps(root, steps[i]);
    assert(no_further(entries[i].path@, path));
}

/// What a path to a trained model leads to: the directory of the run, which
/// holds its config, and that of a checkpoint.
pub struct Trained {
    pub root: String,
    pub dir: String,
}

/// Resolve the path of a trained model.
///
/// `run` is either the directory of a run, which resolves to its newest
/// checkpoint, or one checkpoint inside it, which is taken as given.
/// `is_checkpoint` says that it holds the state of a run, `parent` is the
/// directory it is in, and `entries` are what it holds. `None` where there is
/// no checkpoint.
pub fn resolve(
    run: &str,
    is_checkpoint: bool,
    parent: Option<String>,
    entries: &Vec<Entry>,
) -> (r: Option<Trained>)
    ensures
        is_checkpoint ==> (r matches Some(t) && t.dir@ == run@ && t.root@ == match parent {
            Some(parent) => parent@,
            None => run@,
        }),
        !is_checkpoint ==> match r {
            Some(t) => t.root@ == run@ && is_latest(entries@, t.dir@),
            None => forall|i: int| 0 <= i < entries@.len() ==> !(#[trigger] entries@[i]).has_state,
        },
        !is_checkpoint ==> (r is Some <==> holds_any(entries@)),
{
    if is_checkpoint {
        let root = match parent {
            Some(parent) => parent,
            None => run.to_owned(),
        };
        return Some(Trained { root, dir: run.to_owned() });
    }
    match latest(entries) {
        Some(dir) => Some(Trained { root: run.to_owned(), dir }),
        None => None,
    }
}

/// A checkpoint lies in the directory of its run, under a name that spells its step
/// behind `step_`, in seven places at least.
pub proof fn checkpoints_are_named_by_their_steps(root: &str, step: usize, r: String) -> (digits: Seq<
    char,
>)
    requires
        call_ensures(dir, (root, step), r),
    ensures
        text::spells(digits, step as nat, 7),
        path::components(r@) == path::components(root@).push("step_"@ + digits),
        path::rooted(r@) == path::rooted(root@),
        r@ == path::join(root@, "step_"@ + digits),
{
    reveal_strlit("step_");
    let digits = text::padded(step as nat, 7);
    text::padded_spells(step as nat, 7);
    let name = name_of(step as nat);
    assert forall|i: int| 0 <= i < name.len() implies name[i] != '/' by {
        if i >= 5 {
            assert(name[i] == digits[i - 5]);
        }
    }
    assert(name[0] == 's');
    assert(path::is_name(name));
    path::children_add_a_component(root@, name);
    digits
}

/// The step of a checkpoint is read from the digits behind `step_` in its name, and
/// from nothing else.
pub proof fn steps_are_read_from_names(path: &str, r: Option<u64>, digits: Seq<char>)
    requires
        call_ensures(step_at, (path,), r),
        digits.len() > 0,
        text::all_digits(digits),
    ensures
        path::file_name(path@) == Some("step_"@ + digits) ==> (r is Some <==> text::digits_value(
            digits,
        ) <= u64::MAX),
        path::file_name(path@) == Some("step_"@ + digits) ==> (r matches Some(n) ==> n
            == text::digits_value(digits)),
        r is Some ==> exists|d: Seq<char>|
            d.len() > 0 && #[trigger] text::all_digits(d) && path::file_name(path@) == Some(
                "step_"@ + d,
            ),
{
    reveal_strlit("step_");
    let name = "step_"@ + digits;
    assert(name.take(5) =~= "step_"@);
    assert(name.skip(5) =~= digits);
    if r is Some {
        let own = path::file_name(path@)->0;
        let d = own.skip(5);
        assert(own =~= own.take(5) + d);
        assert(text::all_digits(d));
    }
}

/// The checkpoint that a run resumes from is one of those that hold a state, and
/// there is one where any does. Where the last of them in the order of paths has a
/// step in its name, none of those with one has a higher step; where it has none,
/// it is that last one.
pub proof fn runs_resume_from_the_latest(entries: Vec<Entry>, r: Option<String>, i: int, last: int)
    requires
        call_ensures(latest, (&entries,), r),
        0 <= i < entries@.len(),
        entries@[i].has_state,
        0 <= last < entries@.len(),
        entries@[last].has_state,
        forall|k: int|
            0 <= k < entries@.len() && (#[trigger] entries@[k]).has_state ==> path::path_le(
                entries@[k].path@,
                entries@[last].path@,
            ),
        forall|k: int|
            0 <= k < entries@.len() && (#[trigger] entries@[k]).has_state && path::path_le(
                entries@[last].path@,
                entries@[k].path@,
            ) ==> entries@[k].path@ == entries@[last].path@,
    ensures
        r is Some,
        exists|k: int|
            0 <= k < entries@.len() && (#[trigger] entries@[k]).has_state && entries@[k].path@
                == r->0@,
        step_of(entries@[last].path@) is None ==> r->0@ == entries@[last].path@,
        step_of(entries@[last].path@) is Some ==> step_of(r->0@) is Some,
        step_of(entries@[last].path@) is Some && step_of(entries@[i].path@) is Some ==> step_of(
            entries@[i].path@,
        )->0 <= step_of(r->0@)->0,
        step_of(entries@[last].path@) is Some && step_of(entries@[i].path@) == step_of(r->0@)
            ==> path::path_le(entries@[i].path@, r->0@),
{
    let all = entries@;
    assert(all[i].has_state);
    assert(holds_any(all));
    let path = r->0@;
    assert(is_latest(all, path));
    let end = choose|end: Seq<char>| #[trigger]
        is_last(all, end) && match step_of(end) {
            Some(_) => is_furthest(all, path),
            None => path == end,
        };
    let k = choose|k: int|
        0 <= k < all.len() && (#[trigger] all[k]).has_state && all[k].path@ == end;
    assert(path::path_le(all[last].path@, end));
    assert(all[k].path@ == all[last].path@);
    if step_of(end) is Some {
        assert(is_held(all, path));
        assert(step_of(all[i].path@) is Some ==> no_further(all[i].path@, path));
    }
}

/// A path that holds a state is the checkpoint itself, in the run that it is in;
/// any other is a run, whose latest checkpoint is meant.
pub proof fn paths_lead_to_checkpoints(
    run: &str,
    parent: Option<String>,
    entries: Vec<Entry>,
    given: Option<Trained>,
    found: Option<Trained>,
    newest: Option<String>,
)
    requires
        call_ensures(resolve, (run, true, parent, &entries), given),
        call_ensures(resolve, (run, false, parent, &entries), found),
        call_ensures(latest, (&entries,), newest),
    ensures
        given is Some,
        given->0.dir@ == run@,
        parent is Some ==> given->0.root@ == parent->0@,
        parent is None ==> given->0.root@ == run@,
        found is Some <==> newest is Some,
        found is Some ==> found->0.root@ == run@,
        found is Some ==> is_latest(entries@, found->0.dir@),
{
}

} // verus!
