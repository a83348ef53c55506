//! The one-off pass that turns a corpus into training and validation splits.
//!
//! Documents are tokenised a chunk at a time; a chunk with a bad document in it
//! fails as a whole. Every document goes, in full, to exactly one split.

use vstd::prelude::*;

use crate::data::corpus;
use crate::data::shard::{Meta, Shards, Writer};
use crate::data::tokenizer;
use crate::data::tokenizer::Tokenizer;
use crate::math;
use crate::text;

verus! {

/// Documents tokenised per chunk of a plain pass.
pub const CHUNK: usize = 4096;

/// Documents tokenised per chunk of one source of a mixture.
pub const MIX_CHUNK: usize = 256;

/// One document in this many is held out. The split is by whole document, so
/// no validation text can appear in training.
pub const VALID_EVERY: u64 = 200;

/// Why a corpus cannot be turned into splits.
#[derive(Debug)]
pub enum Error {
    Corpus(corpus::Error),
    Tokenizer(tokenizer::Error),
    InvalidMix(&'static str),
    /// A finite source cannot supply its requested share of the token budget.
    Exhausted { source: usize, train_tokens: u64, requested_tokens: u64 },
    /// There are more tokens, or more bytes, than sixty-four bits count.
    Uncountable,
}

impl Error {
    /// The error in words.
    pub open spec fn words(self) -> Seq<char> {
        match self {
            Error::Corpus(error) => error.words(),
            Error::Tokenizer(error) => error.words(),
            Error::InvalidMix(message) => message@,
            Error::Exhausted { source, train_tokens, requested_tokens } => "mixture source #"@
                + text::decimal((source + 1) as nat) + " ended after "@ + text::decimal(
                train_tokens as nat,
            ) + " training tokens, before the mixture could reach its "@ + text::decimal(
                requested_tokens as nat,
            ) + "-token budget"@,
            Error::Uncountable => "the corpus holds more than can be counted"@,
        }
    }

    /// The error in words.
    pub fn message(&self) -> (r: String)
        requires
            self matches Error::Exhausted { source, .. } ==> source < usize::MAX,
        ensures
            r@ == self.words(),
    {
        let mut out = String::new();
        match self {
            Error::Corpus(error) => {
                return error.message();
            },
            Error::Tokenizer(error) => {
                return error.message();
            },
            Error::InvalidMix(message) => {
                out.append(message);
            },
            Error::Exhausted { source, train_tokens, requested_tokens } => {
                out.append("mixture source #");
                text::push_decimal(&mut out, (*source + 1) as u64);
                out.append(" ended after ");
                text::push_decimal(&mut out, *train_tokens);
                out.append(" training tokens, before the mixture could reach its ");
                text::push_decimal(&mut out, *requested_tokens);
                out.append("-token budget");
            },
            Error::Uncountable => {
                out.append("the corpus holds more than can be counted");
            },
        }
        assert(out@ =~= self.words());
        out
    }

    /// The same error once more.
    pub fn copy(&self) -> (r: Self)
        ensures
            r == *self,
    {
        match self {
            Error::Corpus(error) => Error::Corpus(error.copy()),
            Error::Tokenizer(error) => Error::Tokenizer(error.copy()),
            Error::InvalidMix(message) => Error::InvalidMix(message),
            Error::Exhausted { source, train_tokens, requested_tokens } => Error::Exhausted {
                source: *source,
                train_tokens: *train_tokens,
                requested_tokens: *requested_tokens,
            },
            Error::Uncountable => Error::Uncountable,
        }
    }
}

/// A document's tokens, and the bytes of its text.
pub struct Encoded {
    pub ids: Vec<u16>,
    pub bytes: usize,
}

/// What became of one document.
pub type Item = Result<Encoded, Error>;

/// How many tokens a document came to.
pub open spec fn item_tokens(item: Item) -> nat {
    match item {
        Ok(encoded) => encoded.ids@.len(),
        Err(_) => 0,
    }
}

/// How many bytes a document came to.
pub open spec fn item_bytes(item: Item) -> nat {
    match item {
        Ok(encoded) => encoded.bytes as nat,
        Err(_) => 0,
    }
}

/// Whether the document of this index is held out.
pub open spec fn held_out(index: nat) -> bool {
    index % (VALID_EVERY as nat) == 0
}

/// Whether the document of this index is held out.
pub fn is_held_out(index: u64) -> (r: bool)
    ensures
        r == held_out(index as nat),
{
    index % VALID_EVERY == 0
}

/// What one source contributed to the two splits.
#[derive(Debug, Clone, Copy)]
pub struct SourcePrepared {
    pub train_tokens: u64,
    pub train_docs: u64,
    pub train_bytes: u64,
    pub valid_tokens: u64,
    pub valid_docs: u64,
    pub valid_bytes: u64,
}

/// What one source contributed, without bounds.
pub struct Tally {
    pub train_tokens: nat,
    pub train_docs: nat,
    pub train_bytes: nat,
    pub valid_tokens: nat,
    pub valid_docs: nat,
    pub valid_bytes: nat,
}

impl Tally {
    /// Nothing yet.
    pub open spec fn zero() -> Tally {
        Tally {
            train_tokens: 0,
            train_docs: 0,
            train_bytes: 0,
            valid_tokens: 0,
            valid_docs: 0,
            valid_bytes: 0,
        }
    }

    /// One document more.
    pub open spec fn plus(self, valid: bool, tokens: nat, bytes: nat) -> Tally {
        if valid {
            Tally {
                valid_tokens: self.valid_tokens + tokens,
                valid_docs: self.valid_docs + 1,
                valid_bytes: self.valid_bytes + bytes,
                ..self
            }
        } else {
            Tally {
                train_tokens: self.train_tokens + tokens,
                train_docs: self.train_docs + 1,
                train_bytes: self.train_bytes + bytes,
                ..self
            }
        }
    }

    /// How many documents there were.
    pub open spec fn docs(self) -> nat {
        self.train_docs + self.valid_docs
    }
}

impl View for SourcePrepared {
    type V = Tally;

    open spec fn view(&self) -> Tally {
        Tally {
            train_tokens: self.train_tokens as nat,
            train_docs: self.train_docs as nat,
            train_bytes: self.train_bytes as nat,
            valid_tokens: self.valid_tokens as nat,
            valid_docs: self.valid_docs as nat,
            valid_bytes: self.valid_bytes as nat,
        }
    }
}

/// What the documents of one source come to, split by their indices.
pub open spec fn tally(items: Seq<Item>) -> Tally
    decreases items.len(),
{
    if items.len() == 0 {
        Tally::zero()
    } else {
        tally(items.drop_last()).plus(
            held_out((items.len() - 1) as nat),
            item_tokens(items.last()),
            item_bytes(items.last()),
        )
    }
}

/// The tokens that one source puts into a split.
pub open spec fn split(items: Seq<Item>, valid: bool) -> Seq<u16>
    decreases items.len(),
{
    if items.len() == 0 {
        Seq::empty()
    } else if held_out((items.len() - 1) as nat) == valid {
        split(items.drop_last(), valid) + items.last()->Ok_0.ids@
    } else {
        split(items.drop_last(), valid)
    }
}

/// All the tokens of a list of documents.
pub open spec fn volume(items: Seq<Item>) -> nat
    decreases items.len(),
{
    if items.len() == 0 {
        0
    } else {
        volume(items.drop_last()) + item_tokens(items.last())
    }
}

/// All the bytes of a list of documents.
pub open spec fn weight(items: Seq<Item>) -> nat
    decreases items.len(),
{
    if items.len() == 0 {
        0
    } else {
        weight(items.drop_last()) + item_bytes(items.last())
    }
}

/// Sixty-four bits count the tokens and the bytes.
pub open spec fn countable(items: Seq<Item>) -> bool {
    volume(items) <= u64::MAX && weight(items) <= u64::MAX
}

/// Every document, whole, in exactly one split: between them the splits hold
/// every document, every token and every byte once, the first document is held
/// out, and of each following run of `VALID_EVERY` one more.
pub proof fn splits_partition(items: Seq<Item>)
    ensures
        tally(items).train_docs + tally(items).valid_docs == items.len(),
        tally(items).train_tokens + tally(items).valid_tokens == volume(items),
        tally(items).train_bytes + tally(items).valid_bytes == weight(items),
        items.len() > 0 ==> tally(items).valid_docs == (items.len() - 1) / (VALID_EVERY as int)
            + 1,
    decreases items.len(),
{
    if items.len() > 0 {
        splits_partition(items.drop_last());
    }
}

/// A split holds as many tokens as are counted for it.
pub proof fn splits_are_counted(items: Seq<Item>)
    requires
        forall|i: int| 0 <= i < items.len() ==> (#[trigger] items[i]) is Ok,
    ensures
        split(items, false).len() == tally(items).train_tokens,
        split(items, true).len() == tally(items).valid_tokens,
    decreases items.len(),
{
    if items.len() > 0 {
        splits_are_counted(items.drop_last());
    }
}

proof fn volume_grows(items: Seq<Item>, upto: int)
    requires
        0 <= upto <= items.len(),
    ensures
        volume(items.take(upto)) <= volume(items),
        weight(items.take(upto)) <= weight(items),
    decreases items.len(),
{
    if upto == items.len() {
        assert(items.take(upto) =~= items);
    } else {
        assert(items.drop_last().take(upto) =~= items.take(upto));
        volume_grows(items.drop_last(), upto);
    }
}

/// The first error; with `corpus_only`, the first of a document that cannot
/// be read.
pub open spec fn first_error(items: Seq<Item>, corpus_only: bool) -> Option<Error>
    decreases items.len(),
{
    if items.len() == 0 {
        None
    } else {
        match first_error(items.drop_last(), corpus_only) {
            Some(e) => Some(e),
            None => match items.last() {
                Ok(_) => None,
                Err(e) => if !corpus_only || e is Corpus {
                    Some(e)
                } else {
                    None
                },
            },
        }
    }
}

/// Why a chunk fails: a document that cannot be read comes before one that
/// cannot be encoded.
pub open spec fn chunk_fault(items: Seq<Item>) -> Option<Error> {
    match first_error(items, true) {
        Some(e) => Some(e),
        None => first_error(items, false),
    }
}

/// The chunk that starts at `from`.
pub open spec fn chunk_at(items: Seq<Item>, from: int, size: int) -> Seq<Item> {
    if from + size <= items.len() {
        items.subrange(from, from + size)
    } else if from <= items.len() {
        items.skip(from)
    } else {
        Seq::empty()
    }
}

/// Why the first chunk that fails does.
pub open spec fn fault_from(items: Seq<Item>, from: int, size: int) -> Option<Error>
    decreases
            (if from < items.len() {
                items.len() - from
            } else {
                0
            }),
{
    if size <= 0 || from >= items.len() {
        None
    } else {
        match chunk_fault(chunk_at(items, from, size)) {
            Some(e) => Some(e),
            None => fault_from(items, from + size, size),
        }
    }
}

proof fn no_error_is_ok(items: Seq<Item>)
    requires
        first_error(items, false) is None,
    ensures
        forall|i: int| 0 <= i < items.len() ==> (#[trigger] items[i]) is Ok,
    decreases items.len(),
{
    if items.len() > 0 {
        no_error_is_ok(items.drop_last());
        assert forall|i: int| 0 <= i < items.len() implies (#[trigger] items[i]) is Ok by {
            if i < items.len() - 1 {
                assert(items.drop_last()[i] is Ok);
            }
        }
    }
}

proof fn first_error_stays(items: Seq<Item>, upto: int, corpus_only: bool)
    requires
        0 <= upto <= items.len(),
        first_error(items.take(upto), corpus_only) is Some,
    ensures
        first_error(items, corpus_only) == first_error(items.take(upto), corpus_only),
    decreases items.len(),
{
    if upto == items.len() {
        assert(items.take(upto) =~= items);
    } else {
        assert(items.drop_last().take(upto) =~= items.take(upto));
        first_error_stays(items.drop_last(), upto, corpus_only);
    }
}

fn find_error(items: &Vec<Item>, from: usize, upto: usize, corpus_only: bool) -> (r: Option<Error>)
    requires
        from <= upto <= items.len(),
    ensures
        r == first_error(items@.subrange(from as int, upto as int), corpus_only),
{
    let ghost part = items@.subrange(from as int, upto as int);
    let mut i: usize = from;
    while i < upto
        invariant
            from <= i <= upto <= items.len(),
            part == items@.subrange(from as int, upto as int),
            first_error(part.take(i - from), corpus_only) is None,
        decreases upto - i,
    {
        assert(part.take(i + 1 - from).drop_last() =~= part.take(i - from));
        assert(part.take(i + 1 - from).last() == items@[i as int]);
        match &items[i] {
            Ok(_) => {},
            Err(e) => {
                let picked = match e {
                    Error::Corpus(_) => true,
                    _ => !corpus_only,
                };
                if picked {
                    proof {
                        first_error_stays(part, i + 1 - from, corpus_only);
                    }
                    return Some(e.copy());
                }
            },
        }
        i = i + 1;
    }
    assert(part.take(i - from) =~= part);
    None
}

/// Why the chunk of `size` documents that starts at `from` fails.
pub fn find_fault(items: &Vec<Item>, from: usize, size: usize) -> (r: Option<Error>)
    requires
        from <= items.len(),
    ensures
        r == chunk_fault(chunk_at(items@, from as int, size as int)),
{
    let upto = if items.len() - from >= size {
        from + size
    } else {
        items.len()
    };
    assert(chunk_at(items@, from as int, size as int) =~= items@.subrange(
        from as int,
        upto as int,
    ));
    match find_error(items, from, upto, true) {
        Some(e) => Some(e),
        None => find_error(items, from, upto, false),
    }
}

/// How many documents the chunk that starts at `from` holds.
fn chunk_len(items: &Vec<Item>, from: usize, size: usize) -> (r: usize)
    requires
        from <= items.len(),
    ensures
        r == chunk_at(items@, from as int, size as int).len(),
{
    if items.len() - from >= size {
        size
    } else {
        items.len() - from
    }
}

/// What a pass counted.
#[derive(Debug)]
pub struct Prepared {
    pub train: Meta,
    pub valid: Meta,
    /// Per-source counts, in the order of the sources.
    pub sources: Vec<SourcePrepared>,
}

/// What a pass made.
pub struct Output {
    pub prepared: Prepared,
    pub train: Shards,
    pub valid: Shards,
}

impl Output {
    /// The splits hold `train` and `valid`, and are counted.
    pub open spec fn holds(self, train: Seq<u16>, valid: Seq<u16>, total: Tally) -> bool {
        &&& self.train.tokens@ == train
        &&& self.valid.tokens@ == valid
        &&& self.train.well_formed()
        &&& self.valid.well_formed()
        &&& self.prepared.train == self.train.meta
        &&& self.prepared.valid == self.valid.meta
        &&& self.train.meta.tokens == total.train_tokens
        &&& self.train.meta.docs == total.train_docs
        &&& self.train.meta.bytes == total.train_bytes
        &&& self.valid.meta.tokens == total.valid_tokens
        &&& self.valid.meta.docs == total.valid_docs
        &&& self.valid.meta.bytes == total.valid_bytes
    }

    /// Both splits are marked with the vocabulary.
    pub open spec fn marked(self, vocab_size: usize, eos: u16) -> bool {
        &&& self.train.meta.vocab_size == vocab_size
        &&& self.valid.meta.vocab_size == vocab_size
        &&& self.train.meta.eos == eos
        &&& self.valid.meta.eos == eos
    }
}

/// A plain pass is told: what it made, or why it broke off.
pub open spec fn ran(
    items: Seq<Item>,
    vocab_size: usize,
    eos: u16,
    r: Result<Output, Error>,
) -> bool {
    match fault_from(items, 0, CHUNK as int) {
        Some(e) => r == Err::<Output, Error>(e),
        None => r matches Ok(out) && {
            &&& out.holds(split(items, false), split(items, true), tally(items))
            &&& out.marked(vocab_size, eos)
            &&& out.prepared.sources@.len() == 1
            &&& out.prepared.sources@[0]@ == tally(items)
        },
    }
}

impl SourcePrepared {
    /// What the only source of two splits gave to them.
    pub fn of(train: &Meta, valid: &Meta) -> (r: Self)
        ensures
            r == (SourcePrepared {
                train_tokens: train.tokens,
                train_docs: train.docs,
                train_bytes: train.bytes,
                valid_tokens: valid.tokens,
                valid_docs: valid.docs,
                valid_bytes: valid.bytes,
            }),
    {
        SourcePrepared {
            train_tokens: train.tokens,
            train_docs: train.docs,
            train_bytes: train.bytes,
            valid_tokens: valid.tokens,
            valid_docs: valid.docs,
            valid_bytes: valid.bytes,
        }
    }
}

/// Of `n` documents from the index `from` on, which are held out.
pub open spec fn held_out_from(from: nat, n: nat) -> Seq<bool> {
    Seq::new(n, |i: int| held_out((from + i) as nat))
}

/// Where a chunk ends makes no difference to which documents are held out.
pub proof fn chunks_hold_out_the_same(from: nat, n: nat, m: nat)
    ensures
        held_out_from(from, n) + held_out_from(from + n, m) == held_out_from(from, n + m),
{
    assert(held_out_from(from, n) + held_out_from(from + n, m) =~= held_out_from(from, n + m));
}

/// A plain pass in progress: how many documents have gone to their splits.
pub struct Pass {
    pub index: u64,
}

impl Pass {
    /// A pass with nothing taken in.
    pub fn begin() -> (r: Self)
        ensures
            r.index == 0,
    {
        Pass { index: 0 }
    }

    /// Take in the chunk of `size` documents that starts at `from`: why it fails as
    /// a whole, or which of its documents are held out. At the end of the corpus
    /// the chunk, and the answer, is empty.
    pub fn take(&mut self, items: &Vec<Item>, from: usize, size: usize) -> (r: Result<
        Vec<bool>,
        Error,
    >)
        requires
            from <= items.len(),
        ensures
            ({
                let chunk = chunk_at(items@, from as int, size as int);
                match chunk_fault(chunk) {
                    Some(e) => r == Err::<Vec<bool>, Error>(e) && *final(self) == *old(self),
                    None => if old(self).index + chunk.len() > u64::MAX {
                        r == Err::<Vec<bool>, Error>(Error::Uncountable) && *final(self) == *old(
                            self,
                        )
                    } else {
                        &&& r matches Ok(held)
                        &&& held@ == held_out_from(old(self).index as nat, chunk.len())
                        &&& final(self).index == old(self).index + chunk.len()
                    },
                }
            }),
    {
        match find_fault(items, from, size) {
            Some(e) => {
                return Err(e);
            },
            None => {},
        }
        let n = chunk_len(items, from, size);
        if n as u64 > u64::MAX - self.index {
            return Err(Error::Uncountable);
        }
        let mut held: Vec<bool> = Vec::new();
        let mut i: usize = 0;
        while i < n
            invariant
                i <= n,
                self.index + n <= u64::MAX,
                held@ == held_out_from(self.index as nat, i as nat),
            decreases n - i,
        {
            held.push(is_held_out(self.index + i as u64));
            i = i + 1;
            assert(held@ =~= held_out_from(self.index as nat, i as nat));
        }
        self.index = self.index + n as u64;
        Ok(held)
    }
}

/// Write the documents to their splits.
pub fn run_encoded(items: &Vec<Item>, vocab_size: usize, eos: u16) -> (r: Result<Output, Error>)
    requires
        countable(items@),
    ensures
        ran(items@, vocab_size, eos, r),
{
    let mut train = Writer::create(vocab_size, eos);
    let mut valid = Writer::create(vocab_size, eos);
    let mut pass = Pass::begin();
    let n = items.len();
    let mut from: usize = 0;
    while from < n
        invariant
            n == items.len(),
            countable(items@),
            from <= n,
            pass.index == from,
            fault_from(items@, 0, CHUNK as int) == fault_from(items@, from as int, CHUNK as int),
            train.well_formed(),
            valid.well_formed(),
            train.tokens@ == split(items@.take(from as int), false),
            valid.tokens@ == split(items@.take(from as int), true),
            counted(train.meta, valid.meta, tally(items@.take(from as int))),
            train.meta.vocab_size == vocab_size,
            train.meta.eos == eos,
            valid.meta.vocab_size == vocab_size,
            valid.meta.eos == eos,
        decreases n - from,
    {
        let ghost chunk = chunk_at(items@, from as int, CHUNK as int);
        let held = match pass.take(items, from, CHUNK) {
            Ok(held) => held,
            Err(e) => {
                return Err(e);
            },
        };
        let upto = from + held.len();
        proof {
            no_error_is_ok(chunk);
            assert forall|i: int| from <= i < upto implies (#[trigger] items@[i]) is Ok by {
                assert(chunk[i - from] is Ok);
            }
        }
        let mut i: usize = from;
        while i < upto
            invariant
                from <= i <= upto <= n == items.len(),
                held@ == held_out_from(from as nat, (upto - from) as nat),
                countable(items@),
                forall|i: int| from <= i < upto ==> (#[trigger] items@[i]) is Ok,
                train.well_formed(),
                valid.well_formed(),
                train.tokens@ == split(items@.take(i as int), false),
                valid.tokens@ == split(items@.take(i as int), true),
                counted(train.meta, valid.meta, tally(items@.take(i as int))),
                train.meta.vocab_size == vocab_size,
                train.meta.eos == eos,
                valid.meta.vocab_size == vocab_size,
                valid.meta.eos == eos,
            decreases upto - i,
        {
            proof {
                assert(items@.take(i + 1).drop_last() =~= items@.take(i as int));
                assert(items@.take(i + 1).last() == items@[i as int]);
                volume_grows(items@, i + 1);
                splits_partition(items@.take(i as int));
                splits_partition(items@.take(i + 1));
                assert(items@[i as int] is Ok);
            }
            if let Ok(encoded) = &items[i] {
                if held[i - from] {
                    valid.push(&encoded.ids, encoded.bytes);
                } else {
                    train.push(&encoded.ids, encoded.bytes);
                }
            }
            i = i + 1;
        }
        proof {
            if upto == n {
                assert(fault_from(items@, from + CHUNK, CHUNK as int) is None);
            }
        }
        from = upto;
    }
    assert(items@.take(from as int) =~= items@);
    let report = SourcePrepared::of(&train.meta, &valid.meta);
    let train = train.finish();
    let valid = valid.finish();
    let sources: Vec<SourcePrepared> = vec![report];
    let prepared = Prepared { train: train.meta, valid: valid.meta, sources };
    Ok(Output { prepared, train, valid })
}

/// The counts of the two splits are those of `total`.
pub open spec fn counted(train: Meta, valid: Meta, total: Tally) -> bool {
    &&& train.tokens == total.train_tokens
    &&& train.docs == total.train_docs
    &&& train.bytes == total.train_bytes
    &&& valid.tokens == total.valid_tokens
    &&& valid.docs == total.valid_docs
    &&& valid.bytes == total.valid_bytes
}

/// The sum of a list.
pub open spec fn sum(values: Seq<nat>) -> nat
    decreases values.len(),
{
    if values.len() == 0 {
        0
    } else {
        sum(values.drop_last()) + values.last()
    }
}

proof fn sum_update(values: Seq<nat>, i: int, v: nat)
    requires
        0 <= i < values.len(),
    ensures
        sum(values.update(i, v)) == sum(values) - values[i] + v,
        values[i] <= sum(values),
    decreases values.len(),
{
    if i == values.len() - 1 {
        assert(values.update(i, v).drop_last() =~= values.drop_last());
    } else {
        assert(values.update(i, v).drop_last() =~= values.drop_last().update(i, v));
        sum_update(values.drop_last(), i, v);
    }
}

proof fn sum_le(a: Seq<nat>, b: Seq<nat>)
    requires
        a.len() == b.len(),
        forall|i: int| 0 <= i < a.len() ==> (#[trigger] a[i]) <= b[i],
    ensures
        sum(a) <= sum(b),
    decreases a.len(),
{
    if a.len() > 0 {
        assert forall|i: int| 0 <= i < a.drop_last().len() implies (#[trigger] a.drop_last()[i])
            <= b.drop_last()[i] by {
            assert(a[i] <= b[i]);
        }
        sum_le(a.drop_last(), b.drop_last());
    }
}

proof fn sum_zero(values: Seq<nat>)
    requires
        forall|i: int| 0 <= i < values.len() ==> (#[trigger] values[i]) == 0,
    ensures
        sum(values) == 0,
    decreases values.len(),
{
    if values.len() > 0 {
        assert forall|i: int| 0 <= i < values.drop_last().len() implies (
        #[trigger] values.drop_last()[i]) == 0 by {
            assert(values[i] == 0);
        }
        sum_zero(values.drop_last());
    }
}

/// Source `i` is furthest below its relative allocation: no other has fewer
/// tokens for its weight, and of those that have as few it is the first.
pub open spec fn is_lightest(tokens: Seq<nat>, weights: Seq<nat>, i: int) -> bool {
    &&& 0 <= i < tokens.len()
    &&& forall|j: int|
        0 <= j < tokens.len() ==> (#[trigger] tokens[j]) * weights[i] > tokens[i] * weights[j] || (
        tokens[j] * weights[i] == tokens[i] * weights[j] && i <= j)
}

/// The source furthest below its relative allocation.
pub open spec fn lightest(tokens: Seq<nat>, weights: Seq<nat>) -> int {
    choose|i: int| is_lightest(tokens, weights, i)
}

proof fn lightest_is_one(tokens: Seq<nat>, weights: Seq<nat>, i: int)
    requires
        tokens.len() == weights.len(),
        is_lightest(tokens, weights, i),
    ensures
        lightest(tokens, weights) == i,
{
    let k = lightest(tokens, weights);
    assert(is_lightest(tokens, weights, k));
    assert(tokens[k] * weights[i] >= tokens[i] * weights[k]);
    assert(tokens[i] * weights[k] >= tokens[k] * weights[i]);
}

proof fn lighter_chains(ta: nat, wa: nat, tb: nat, wb: nat, tc: nat, wc: nat)
    requires
        wa > 0,
        wb > 0,
        wc > 0,
        ta * wb <= tb * wa,
        tb * wc <= tc * wb,
    ensures
        ta * wc <= tc * wa,
        ta * wb < tb * wa || tb * wc < tc * wb ==> ta * wc < tc * wa,
{
    assert(ta * wb * wc <= tb * wa * wc) by (nonlinear_arith)
        requires
            ta * wb <= tb * wa,
    ;
    assert(tb * wc * wa <= tc * wb * wa) by (nonlinear_arith)
        requires
            tb * wc <= tc * wb,
    ;
    assert(tb * wa * wc == tb * wc * wa) by (nonlinear_arith);
    assert(ta * wb * wc == (ta * wc) * wb) by (nonlinear_arith);
    assert(tc * wb * wa == (tc * wa) * wb) by (nonlinear_arith);
    assert(ta * wc <= tc * wa) by (nonlinear_arith)
        requires
            (ta * wc) * wb <= (tc * wa) * wb,
            wb > 0,
    ;
    if ta * wb < tb * wa {
        assert(ta * wb * wc < tb * wa * wc) by (nonlinear_arith)
            requires
                ta * wb < tb * wa,
                wc > 0,
        ;
    }
    if tb * wc < tc * wb {
        assert(tb * wc * wa < tc * wb * wa) by (nonlinear_arith)
            requires
                tb * wc < tc * wb,
                wa > 0,
        ;
    }
    if ta * wb < tb * wa || tb * wc < tc * wb {
        assert(ta * wc < tc * wa) by (nonlinear_arith)
            requires
                (ta * wc) * wb < (tc * wa) * wb,
                wb > 0,
        ;
    }
}

/// The integers of a list of weights.
pub open spec fn nats(values: Seq<u64>) -> Seq<nat> {
    values.map_values(|v: u64| v as nat)
}

/// The training tokens of each source.
pub open spec fn train_tokens(sources: Seq<SourcePrepared>) -> Seq<nat> {
    sources.map_values(|s: SourcePrepared| s.train_tokens as nat)
}

/// Why a mixture cannot be made at all.
pub open spec fn mix_mistake(weights: Seq<nat>, budget: nat) -> Option<&'static str> {
    if weights.len() < 2 {
        Some("a mixture needs at least two sources")
    } else if budget == 0 {
        Some("the training token budget must be positive")
    } else if exists|i: int| 0 <= i < weights.len() && (#[trigger] weights[i]) == 0 {
        Some("mixture weights must be positive")
    } else {
        None
    }
}

/// A mixture in progress: which source is next, and what each has given.
///
/// Scheduling happens after tokenisation: the trainer draws uniform token
/// offsets, so document counts and download sizes are not the distribution it
/// sees. Every source has its own split by document index; a global counter
/// would phase-lock a periodic weighted schedule and could put every validation
/// document into the same source.
pub struct Mixer {
    pub weights: Vec<u64>,
    pub sources: Vec<SourcePrepared>,
    pub total: u64,
    pub budget: u64,
}

impl Mixer {
    /// The weights are in order, and the counts agree with each other.
    pub open spec fn well_formed(self) -> bool {
        &&& mix_mistake(nats(self.weights@), self.budget as nat) is None
        &&& self.sources@.len() == self.weights@.len()
        &&& self.total == sum(train_tokens(self.sources@))
        &&& forall|i: int|
            0 <= i < self.sources@.len() ==> (#[trigger] self.sources@[i])@.docs() <= u64::MAX
    }

    /// A mixture with nothing drawn.
    pub fn new(weights: Vec<u64>, budget: u64) -> (r: Result<Self, Error>)
        ensures
            match mix_mistake(nats(weights@), budget as nat) {
                Some(mistake) => r matches Err(Error::InvalidMix(m)) && m@ == mistake@,
                None => r matches Ok(mixer) && {
                    &&& mixer.well_formed()
                    &&& mixer.weights == weights
                    &&& mixer.budget == budget
                    &&& forall|i: int|
                        0 <= i < weights@.len() ==> (#[trigger] mixer.sources@[i])@ == Tally::zero()
                },
            },
    {
        if weights.len() < 2 {
            return Err(Error::InvalidMix("a mixture needs at least two sources"));
        }
        if budget == 0 {
            return Err(Error::InvalidMix("the training token budget must be positive"));
        }
        let mut sources: Vec<SourcePrepared> = Vec::new();
        let mut i: usize = 0;
        while i < weights.len()
            invariant
                i <= weights.len(),
                weights@.len() >= 2,
                budget > 0,
                sources@.len() == i,
                forall|k: int| 0 <= k < i ==> nats(weights@)[k] > 0,
                forall|k: int| 0 <= k < i ==> (#[trigger] sources@[k])@ == Tally::zero(),
            decreases weights.len() - i,
        {
            if weights[i] == 0 {
                assert(nats(weights@)[i as int] == 0);
                return Err(Error::InvalidMix("mixture weights must be positive"));
            }
            sources.push(
                SourcePrepared {
                    train_tokens: 0,
                    train_docs: 0,
                    train_bytes: 0,
                    valid_tokens: 0,
                    valid_docs: 0,
                    valid_bytes: 0,
                },
            );
            i = i + 1;
        }
        proof {
            assert forall|k: int| 0 <= k < train_tokens(sources@).len() implies (
            #[trigger] train_tokens(sources@)[k]) == 0 by {
                assert(sources@[k]@ == Tally::zero());
            }
            sum_zero(train_tokens(sources@));
        }
        Ok(Mixer { weights, sources, total: 0, budget })
    }

    /// Whether the budget is reached.
    pub fn done(&self) -> (r: bool)
        ensures
            r == (self.total >= self.budget),
    {
        self.total >= self.budget
    }

    /// The source furthest below its relative allocation, to draw from next.
    pub fn lightest(&self) -> (r: usize)
        requires
            self.well_formed(),
        ensures
            is_lightest(train_tokens(self.sources@), nats(self.weights@), r as int),
            r == lightest(train_tokens(self.sources@), nats(self.weights@)),
    {
        let ghost tokens = train_tokens(self.sources@);
        let ghost weights = nats(self.weights@);
        let mut best: usize = 0;
        let mut i: usize = 1;
        while i < self.weights.len()
            invariant
                self.well_formed(),
                tokens == train_tokens(self.sources@),
                weights == nats(self.weights@),
                best < i <= self.weights@.len(),
                forall|j: int|
                    0 <= j < i ==> (#[trigger] tokens[j]) * weights[best as int]
                        > tokens[best as int] * weights[j] || (tokens[j] * weights[best as int]
                        == tokens[best as int] * weights[j] && best <= j),
            decreases self.weights.len() - i,
        {
            let a: u128 = self.sources[i].train_tokens as u128;
            let b: u128 = self.sources[best].train_tokens as u128;
            let wa: u128 = self.weights[i] as u128;
            let wb: u128 = self.weights[best] as u128;
            proof {
                assert(weights[i as int] > 0 && weights[best as int] > 0);
                assert(a * wb <= u64::MAX * u64::MAX) by (nonlinear_arith)
                    requires
                        0 <= a <= u64::MAX,
                        0 <= wb <= u64::MAX,
                ;
                assert(b * wa <= u64::MAX * u64::MAX) by (nonlinear_arith)
                    requires
                        0 <= b <= u64::MAX,
                        0 <= wa <= u64::MAX,
                ;
                assert(tokens[i as int] == a && weights[i as int] == wa);
                assert(tokens[best as int] == b && weights[best as int] == wb);
            }
            if a * wb < b * wa {
                proof {
                    assert forall|j: int| 0 <= j < i + 1 implies (#[trigger] tokens[j])
                        * weights[i as int] > tokens[i as int] * weights[j] || (tokens[j]
                        * weights[i as int] == tokens[i as int] * weights[j] && i <= j) by {
                        if j < i {
                            assert(weights[j] > 0);
                            lighter_chains(
                                tokens[i as int],
                                weights[i as int],
                                tokens[best as int],
                                weights[best as int],
                                tokens[j],
                                weights[j],
                            );
                        }
                    }
                }
                best = i;
            }
            i = i + 1;
        }
        proof {
            assert(is_lightest(tokens, weights, best as int));
            lightest_is_one(tokens, weights, best as int);
        }
        best
    }

    /// What a source that has no document left leads to.
    pub fn exhausted(&self, source: usize) -> (r: Error)
        requires
            source < self.sources@.len(),
        ensures
            r == (Error::Exhausted {
                source,
                train_tokens: self.sources@[source as int].train_tokens,
                requested_tokens: self.budget,
            }),
    {
        Error::Exhausted {
            source,
            train_tokens: self.sources[source].train_tokens,
            requested_tokens: self.budget,
        }
    }

    /// A document of a source can be counted.
    pub open spec fn has_room(self, source: int, tokens: int, bytes: int) -> bool {
        &&& 0 <= source < self.sources@.len()
        &&& self.total + tokens <= u64::MAX
        &&& self.sources@[source]@.docs() < u64::MAX
        &&& self.sources@[source].valid_tokens + tokens <= u64::MAX
        &&& self.sources@[source].valid_bytes + bytes <= u64::MAX
        &&& self.sources@[source].train_bytes + bytes <= u64::MAX
    }

    /// Whether a document of a source can be counted.
    pub fn fits(&self, source: usize, tokens: usize, bytes: usize) -> (r: bool)
        requires
            self.well_formed(),
        ensures
            r == self.has_room(source as int, tokens as int, bytes as int),
    {
        if source >= self.sources.len() {
            return false;
        }
        let s = self.sources[source];
        u64::MAX - self.total >= tokens as u64 && s.train_docs < u64::MAX - s.valid_docs && u64::MAX
            - s.valid_tokens >= tokens as u64 && u64::MAX - s.valid_bytes >= bytes as u64
            && u64::MAX - s.train_bytes >= bytes as u64
    }

    /// What is left of the mixture after a document of a source.
    pub open spec fn recorded(
        self,
        source: int,
        tokens: nat,
        bytes: nat,
        valid: bool,
        then: Mixer,
    ) -> bool {
        &&& valid == held_out(self.sources@[source]@.docs())
        &&& then.weights == self.weights
        &&& then.budget == self.budget
        &&& then.sources@.len() == self.sources@.len()
        &&& then.sources@[source]@ == self.sources@[source]@.plus(valid, tokens, bytes)
        &&& forall|i: int|
            0 <= i < self.sources@.len() && i != source ==> #[trigger] then.sources@[i]
                == self.sources@[i]
        &&& then.total == self.total + if valid {
            0
        } else {
            tokens
        }
    }

    /// Count one document of a source, and say whether it is held out.
    pub fn record(&mut self, source: usize, tokens: usize, bytes: usize) -> (valid: bool)
        requires
            old(self).well_formed(),
            old(self).has_room(source as int, tokens as int, bytes as int),
        ensures
            final(self).well_formed(),
            old(self).recorded(source as int, tokens as nat, bytes as nat, valid, *final(self)),
    {
        let mut report = self.sources[source];
        let ghost before = self.sources@;
        let valid = is_held_out(report.train_docs + report.valid_docs);
        proof {
            sum_update(
                train_tokens(before),
                source as int,
                (before[source as int].train_tokens + if valid {
                    0
                } else {
                    tokens as int
                }) as nat,
            );
        }
        if valid {
            report.valid_tokens = report.valid_tokens + tokens as u64;
            report.valid_docs = report.valid_docs + 1;
            report.valid_bytes = report.valid_bytes + bytes as u64;
        } else {
            report.train_tokens = report.train_tokens + tokens as u64;
            report.train_docs = report.train_docs + 1;
            report.train_bytes = report.train_bytes + bytes as u64;
            self.total = self.total + tokens as u64;
        }
        self.sources.set(source, report);
        proof {
            assert(train_tokens(self.sources@) =~= train_tokens(before).update(
                source as int,
                report.train_tokens as nat,
            ));
        }
        valid
    }
}

/// No source is ahead of another by more than it has as its `last` document,
/// each measured by its weight.
pub open spec fn balanced(tokens: Seq<nat>, weights: Seq<nat>, last: Seq<nat>) -> bool {
    forall|i: int, j: int|
        0 <= i < tokens.len() && 0 <= j < tokens.len() ==> (#[trigger] tokens[i]) * (
        #[trigger] weights[j]) <= tokens[j] * weights[i] + last[i] * weights[j]
}

/// Drawing from the lightest source keeps every source within one document of its
/// weight, whatever the sizes of the sources.
pub proof fn drawing_keeps_the_balance(
    tokens: Seq<nat>,
    weights: Seq<nat>,
    last: Seq<nat>,
    source: int,
    drawn: nat,
)
    requires
        tokens.len() == weights.len(),
        tokens.len() == last.len(),
        balanced(tokens, weights, last),
        is_lightest(tokens, weights, source),
    ensures
        balanced(
            tokens.update(source, tokens[source] + drawn),
            weights,
            last.update(source, drawn),
        ),
{
    let after = tokens.update(source, tokens[source] + drawn);
    let ends = last.update(source, drawn);
    assert forall|i: int, j: int| 0 <= i < after.len() && 0 <= j < after.len() implies (
    #[trigger] after[i]) * (#[trigger] weights[j]) <= after[j] * weights[i] + ends[i]
        * weights[j] by {
        assert(tokens[i] * weights[j] <= tokens[j] * weights[i] + last[i] * weights[j]);
        if i == source {
            assert(tokens[j] * weights[i] >= tokens[i] * weights[j]);
            assert((tokens[i] + drawn) * weights[j] == tokens[i] * weights[j] + drawn * weights[j])
                by (nonlinear_arith);
            if j == source {
                assert((tokens[i] + drawn) * weights[j] <= (tokens[j] + drawn) * weights[i] + drawn
                    * weights[j]) by (nonlinear_arith)
                    requires
                        i == j,
                ;
            }
        } else if j == source {
            assert((tokens[j] + drawn) * weights[i] >= tokens[j] * weights[i]) by (nonlinear_arith);
        }
    }
}

impl Tally {
    /// Both together.
    pub open spec fn and(self, other: Tally) -> Tally {
        Tally {
            train_tokens: self.train_tokens + other.train_tokens,
            train_docs: self.train_docs + other.train_docs,
            train_bytes: self.train_bytes + other.train_bytes,
            valid_tokens: self.valid_tokens + other.valid_tokens,
            valid_docs: self.valid_docs + other.valid_docs,
            valid_bytes: self.valid_bytes + other.valid_bytes,
        }
    }
}

/// All of them together.
pub open spec fn combined(tallies: Seq<Tally>) -> Tally
    decreases tallies.len(),
{
    if tallies.len() == 0 {
        Tally::zero()
    } else {
        combined(tallies.drop_last()).and(tallies.last())
    }
}

proof fn combined_update(tallies: Seq<Tally>, i: int, valid: bool, tokens: nat, bytes: nat)
    requires
        0 <= i < tallies.len(),
    ensures
        combined(tallies.update(i, tallies[i].plus(valid, tokens, bytes))) == combined(
            tallies,
        ).plus(valid, tokens, bytes),
    decreases tallies.len(),
{
    let changed = tallies.update(i, tallies[i].plus(valid, tokens, bytes));
    if i == tallies.len() - 1 {
        assert(changed.drop_last() =~= tallies.drop_last());
    } else {
        assert(changed.drop_last() =~= tallies.drop_last().update(
            i,
            tallies[i].plus(valid, tokens, bytes),
        ));
        combined_update(tallies.drop_last(), i, valid, tokens, bytes);
    }
}

/// What a mixture asks for next.
#[derive(Debug, Clone, Copy, PartialEq, Eq, Structural)]
pub enum Step {
    /// Nothing: the budget is reached.
    Done,
    /// The next chunk of this source.
    Read(usize),
    /// The next document of this source.
    Draw(usize),
}

/// A mixture whose documents are read a chunk at a time.
pub struct Blend {
    pub mixer: Mixer,
    /// How many documents of each source are read and not yet drawn.
    pub ready: Vec<usize>,
}

impl Blend {
    /// The mixture is in order, and every source is waited for.
    pub open spec fn well_formed(self) -> bool {
        &&& self.mixer.well_formed()
        &&& self.ready@.len() == self.mixer.sources@.len()
    }

    /// The source furthest below its relative allocation.
    pub open spec fn due(self) -> int {
        lightest(train_tokens(self.mixer.sources@), nats(self.mixer.weights@))
    }

    /// What comes next.
    pub open spec fn step(self) -> Step {
        if self.mixer.total >= self.mixer.budget {
            Step::Done
        } else if self.ready@[self.due()] == 0 {
            Step::Read(self.due() as usize)
        } else {
            Step::Draw(self.due() as usize)
        }
    }

    /// A mixture with nothing read.
    pub fn new(weights: Vec<u64>, budget: u64) -> (r: Result<Self, Error>)
        ensures
            match mix_mistake(nats(weights@), budget as nat) {
                Some(mistake) => r matches Err(Error::InvalidMix(m)) && m@ == mistake@,
                None => r matches Ok(blend) && {
                    &&& blend.well_formed()
                    &&& blend.mixer.weights == weights
                    &&& blend.mixer.budget == budget
                    &&& blend.ready@.len() == weights@.len()
                    &&& forall|i: int|
                        0 <= i < weights@.len() ==> (#[trigger] blend.mixer.sources@[i])@
                            == Tally::zero()
                    &&& forall|i: int| 0 <= i < weights@.len() ==> (#[trigger] blend.ready@[i]) == 0
                },
            },
    {
        let n = weights.len();
        let mixer = match Mixer::new(weights, budget) {
            Ok(mixer) => mixer,
            Err(e) => {
                return Err(e);
            },
        };
        let mut ready: Vec<usize> = Vec::new();
        let mut i: usize = 0;
        while i < n
            invariant
                i <= n,
                ready@.len() == i,
                forall|k: int| 0 <= k < i ==> (#[trigger] ready@[k]) == 0,
            decreases n - i,
        {
            ready.push(0);
            i = i + 1;
        }
        Ok(Blend { mixer, ready })
    }

    /// What comes next: the source that is due is read where nothing of it is left.
    pub fn next(&self) -> (r: Step)
        requires
            self.well_formed(),
        ensures
            r == self.step(),
            match r {
                Step::Done => true,
                Step::Read(source) => source == self.due() && source < self.ready@.len(),
                Step::Draw(source) => source == self.due() && source < self.ready@.len(),
            },
    {
        if self.mixer.done() {
            return Step::Done;
        }
        let source = self.mixer.lightest();
        if self.ready[source] == 0 {
            Step::Read(source)
        } else {
            Step::Draw(source)
        }
    }

    /// Take in the chunk of `size` documents of a source that starts at `from`: it
    /// fails as a whole, or because there is none.
    pub fn fill(
        &mut self,
        source: usize,
        items: &Vec<Item>,
        from: usize,
        size: usize,
    ) -> (r: Result<(), Error>)
        requires
            old(self).well_formed(),
            source < old(self).ready@.len(),
            from <= items.len(),
        ensures
            final(self).well_formed(),
            final(self).mixer == old(self).mixer,
            ({
                let chunk = chunk_at(items@, from as int, size as int);
                match chunk_fault(chunk) {
                    Some(e) => r == Err::<(), Error>(e) && final(self).ready@ == old(self).ready@,
                    None => if chunk.len() == 0 {
                        &&& r == Err::<(), Error>(
                            Error::Exhausted {
                                source,
                                train_tokens: old(
                                    self,
                                ).mixer.sources@[source as int].train_tokens,
                                requested_tokens: old(self).mixer.budget,
                            },
                        )
                        &&& final(self).ready@ == old(self).ready@
                    } else {
                        &&& r is Ok
                        &&& final(self).ready@ == old(self).ready@.update(
                            source as int,
                            chunk.len() as usize,
                        )
                    },
                }
            }),
    {
        match find_fault(items, from, size) {
            Some(e) => {
                return Err(e);
            },
            None => {},
        }
        let n = chunk_len(items, from, size);
        if n == 0 {
            return Err(self.mixer.exhausted(source));
        }
        self.ready.set(source, n);
        Ok(())
    }

    /// Draw one document of a source, and say whether it is held out. It fails
    /// where the document cannot be counted.
    pub fn draw(&mut self, source: usize, tokens: usize, bytes: usize) -> (r: Result<bool, Error>)
        requires
            old(self).well_formed(),
            source < old(self).ready@.len(),
            old(self).ready@[source as int] > 0,
        ensures
            final(self).well_formed(),
            if old(self).mixer.has_room(source as int, tokens as int, bytes as int) {
                &&& r matches Ok(valid)
                &&& old(self).mixer.recorded(
                    source as int,
                    tokens as nat,
                    bytes as nat,
                    valid,
                    final(self).mixer,
                )
                &&& final(self).ready@ == old(self).ready@.update(
                    source as int,
                    (old(self).ready@[source as int] - 1) as usize,
                )
            } else {
                r == Err::<bool, Error>(Error::Uncountable) && *final(self) == *old(self)
            },
    {
        if !self.mixer.fits(source, tokens, bytes) {
            return Err(Error::Uncountable);
        }
        let left = self.ready[source];
        let valid = self.mixer.record(source, tokens, bytes);
        self.ready.set(source, left - 1);
        Ok(valid)
    }
}

/// A source of a mixture: its documents and its relative token weight. Weights
/// do not have to sum to 100: `3:1` and `75:25` describe the same mixture.
pub struct EncodedSource {
    pub items: Vec<Item>,
    pub weight: u64,
}

/// The weights of the sources.
pub open spec fn source_weights(sources: Seq<EncodedSource>) -> Seq<nat> {
    Seq::new(sources.len(), |i: int| sources[i].weight as nat)
}

/// What each source has given once `taken` of its documents are drawn.
pub open spec fn tallies(sources: Seq<EncodedSource>, taken: Seq<nat>) -> Seq<Tally> {
    Seq::new(sources.len(), |i: int| tally(sources[i].items@.take(taken[i] as int)))
}

/// The training tokens of each source by then.
pub open spec fn tokens_at(sources: Seq<EncodedSource>, taken: Seq<nat>) -> Seq<nat> {
    Seq::new(sources.len(), |i: int| tallies(sources, taken)[i].train_tokens)
}

/// The source that is due by then.
pub open spec fn due(sources: Seq<EncodedSource>, taken: Seq<nat>) -> int {
    lightest(tokens_at(sources, taken), source_weights(sources))
}

/// How many documents of each source are drawn in the first `n` draws.
pub open spec fn taken(sources: Seq<EncodedSource>, n: nat) -> Seq<nat>
    decreases n,
{
    if n == 0 {
        Seq::new(sources.len(), |i: int| 0)
    } else {
        let before = taken(sources, (n - 1) as nat);
        let i = due(sources, before);
        before.update(i, before[i] + 1)
    }
}

/// The tokens that the first `n` draws put into a split.
pub open spec fn drawn(sources: Seq<EncodedSource>, n: nat, valid: bool) -> Seq<u16>
    decreases n,
{
    if n == 0 {
        Seq::empty()
    } else {
        let before = taken(sources, (n - 1) as nat);
        let i = due(sources, before);
        if held_out(before[i]) == valid {
            drawn(sources, (n - 1) as nat, valid)
                + sources[i].items@[before[i] as int]->Ok_0.ids@
        } else {
            drawn(sources, (n - 1) as nat, valid)
        }
    }
}

/// The training tokens after the first `n` draws.
pub open spec fn total_at(sources: Seq<EncodedSource>, n: nat) -> nat {
    sum(tokens_at(sources, taken(sources, n)))
}

/// The chunk of a source that holds its document `k`.
pub open spec fn chunk_of(items: Seq<Item>, k: int) -> Seq<Item> {
    chunk_at(items, k / (MIX_CHUNK as int) * (MIX_CHUNK as int), MIX_CHUNK as int)
}

/// Why the source that is due after `n` draws has no document to give.
pub open spec fn draw_fault(
    sources: Seq<EncodedSource>,
    budget: u64,
    n: nat,
) -> Option<Error> {
    let now = taken(sources, n);
    let i = due(sources, now);
    let items = sources[i].items@;
    match chunk_fault(chunk_of(items, now[i] as int)) {
        Some(e) => Some(e),
        None => if now[i] >= items.len() {
            Some(
                Error::Exhausted {
                    source: i as usize,
                    train_tokens: tokens_at(sources, now)[i] as u64,
                    requested_tokens: budget,
                },
            )
        } else {
            None
        },
    }
}

/// The mixture goes on after `n` draws.
pub open spec fn goes_on(sources: Seq<EncodedSource>, budget: u64, n: nat) -> bool {
    total_at(sources, n) < budget && draw_fault(sources, budget, n) is None
}

/// The mixture ends after exactly `n` draws.
pub open spec fn ends_at(sources: Seq<EncodedSource>, budget: u64, n: nat) -> bool {
    &&& forall|m: nat| m < n ==> #[trigger] goes_on(sources, budget, m)
    &&& !goes_on(sources, budget, n)
}

/// The tokens of each source, in all.
pub open spec fn volumes(sources: Seq<EncodedSource>) -> Seq<nat> {
    Seq::new(sources.len(), |i: int| volume(sources[i].items@))
}

/// The bytes of each source, in all.
pub open spec fn byte_volumes(sources: Seq<EncodedSource>) -> Seq<nat> {
    Seq::new(sources.len(), |i: int| weight(sources[i].items@))
}

/// The documents of each source, in all.
pub open spec fn doc_counts(sources: Seq<EncodedSource>) -> Seq<nat> {
    Seq::new(sources.len(), |i: int| sources[i].items@.len())
}

/// Sixty-four bits count the tokens, the bytes and the documents.
pub open spec fn all_countable(sources: Seq<EncodedSource>) -> bool {
    &&& sum(volumes(sources)) <= u64::MAX
    &&& sum(byte_volumes(sources)) <= u64::MAX
    &&& sum(doc_counts(sources)) <= u64::MAX
}

proof fn combined_bounds(sources: Seq<EncodedSource>, taken: Seq<nat>)
    requires
        taken.len() == sources.len(),
        forall|i: int| 0 <= i < sources.len() ==> (#[trigger] taken[i]) <= sources[i].items@.len(),
    ensures
        combined(tallies(sources, taken)).train_tokens + combined(
            tallies(sources, taken),
        ).valid_tokens <= sum(volumes(sources)),
        combined(tallies(sources, taken)).train_bytes + combined(
            tallies(sources, taken),
        ).valid_bytes <= sum(byte_volumes(sources)),
        combined(tallies(sources, taken)).train_docs + combined(
            tallies(sources, taken),
        ).valid_docs == sum(taken),
        combined(tallies(sources, taken)).train_tokens == sum(tokens_at(sources, taken)),
        sum(taken) <= sum(doc_counts(sources)),
    decreases sources.len(),
{
    if sources.len() > 0 {
        let rest = sources.drop_last();
        let part = taken.drop_last();
        assert forall|i: int| 0 <= i < rest.len() implies (#[trigger] part[i])
            <= rest[i].items@.len() by {
            assert(taken[i] <= sources[i].items@.len());
        }
        combined_bounds(rest, part);
        assert(tallies(sources, taken).drop_last() =~= tallies(rest, part));
        assert(tokens_at(sources, taken).drop_last() =~= tokens_at(rest, part));
        assert(volumes(sources).drop_last() =~= volumes(rest));
        assert(byte_volumes(sources).drop_last() =~= byte_volumes(rest));
        assert(doc_counts(sources).drop_last() =~= doc_counts(rest));
        let k = taken.last() as int;
        assert(taken[sources.len() - 1] <= sources.last().items@.len());
        volume_grows(sources.last().items@, k);
        splits_partition(sources.last().items@.take(k));
    } else {
        assert(tallies(sources, taken).len() == 0);
        assert(tokens_at(sources, taken).len() == 0);
    }
}

proof fn draw_adds(sources: Seq<EncodedSource>, taken: Seq<nat>, i: int)
    requires
        taken.len() == sources.len(),
        0 <= i < sources.len(),
        taken[i] < sources[i].items@.len(),
    ensures
        tallies(sources, taken.update(i, taken[i] + 1)) == tallies(sources, taken).update(
            i,
            tallies(sources, taken)[i].plus(
                held_out(taken[i]),
                item_tokens(sources[i].items@[taken[i] as int]),
                item_bytes(sources[i].items@[taken[i] as int]),
            ),
        ),
        combined(tallies(sources, taken.update(i, taken[i] + 1))) == combined(
            tallies(sources, taken),
        ).plus(
            held_out(taken[i]),
            item_tokens(sources[i].items@[taken[i] as int]),
            item_bytes(sources[i].items@[taken[i] as int]),
        ),
{
    let k = taken[i] as int;
    let items = sources[i].items@;
    assert(items.take(k + 1).drop_last() =~= items.take(k));
    assert(items.take(k + 1).last() == items[k]);
    assert(tallies(sources, taken.update(i, taken[i] + 1)) =~= tallies(sources, taken).update(
        i,
        tallies(sources, taken)[i].plus(
            held_out(taken[i]),
            item_tokens(items[k]),
            item_bytes(items[k]),
        ),
    ));
    combined_update(
        tallies(sources, taken),
        i,
        held_out(taken[i]),
        item_tokens(items[k]),
        item_bytes(items[k]),
    );
}

/// A mixture is told: what it made, or why it broke off.
pub open spec fn mixed(
    sources: Seq<EncodedSource>,
    vocab_size: usize,
    eos: u16,
    budget: u64,
    n: nat,
    r: Result<Output, Error>,
) -> bool {
    let at = taken(sources, n);
    if total_at(sources, n) >= budget {
        r matches Ok(out) && {
            &&& out.holds(
                drawn(sources, n, false),
                drawn(sources, n, true),
                combined(tallies(sources, at)),
            )
            &&& out.marked(vocab_size, eos)
            &&& out.prepared.sources@.len() == sources.len()
            &&& forall|i: int|
                0 <= i < sources.len() ==> (#[trigger] out.prepared.sources@[i])@ == tallies(
                    sources,
                    at,
                )[i]
        }
    } else {
        r is Err && Some(r->Err_0) == draw_fault(sources, budget, n)
    }
}

proof fn reading_goes_on(items: Seq<Item>, at: int)
    requires
        read_upto(items, at, 0),
        chunk_at(items, at, MIX_CHUNK as int).len() > 0,
        chunk_fault(chunk_at(items, at, MIX_CHUNK as int)) is None,
    ensures
        read_upto(items, at, chunk_at(items, at, MIX_CHUNK as int).len() as int),
{
    assert(at % 256 == 0);
    assert(at / 256 * 256 == at);
}

proof fn reading_fails(items: Seq<Item>, at: int)
    requires
        read_upto(items, at, 0),
    ensures
        chunk_fault(chunk_of(items, at)) == chunk_fault(chunk_at(items, at, MIX_CHUNK as int)),
        chunk_at(items, at, MIX_CHUNK as int).len() == 0 <==> at == items.len(),
{
    if at % 256 == 0 {
        assert(at / 256 * 256 == at);
    } else {
        let none = chunk_at(items, at, MIX_CHUNK as int);
        assert(none.len() == 0);
        assert(first_error(none, true) is None && first_error(none, false) is None);
    }
}

proof fn drawing_goes_on(items: Seq<Item>, at: int, ready: int)
    requires
        read_upto(items, at, ready),
        ready > 0,
    ensures
        at < items.len(),
        items[at] is Ok,
        chunk_fault(chunk_of(items, at)) is None,
        read_upto(items, at + 1, ready - 1),
{
    let chunk = chunk_of(items, at);
    let from = at / 256 * 256;
    assert(at < items.len());
    assert(from <= at < from + 256);
    no_error_is_ok(chunk);
    assert(chunk[at - from] == items[at]);
    if (at + 1) % 256 != 0 {
        assert((at + 1) / 256 == at / 256);
    } else {
        assert(at + 1 == (at / 256 + 1) * 256);
    }
}

/// What a draw leads to, where the source that is due has a document ready.
proof fn draw_follows(sources: Seq<EncodedSource>, budget: u64, n: nat, ready: int)
    requires
        all_countable(sources),
        taken(sources, n).len() == sources.len(),
        forall|i: int|
            0 <= i < sources.len() ==> (#[trigger] taken(sources, n)[i])
                <= sources[i].items@.len(),
        0 <= due(sources, taken(sources, n)) < sources.len(),
        total_at(sources, n) < budget,
        ready > 0,
        read_upto(
            sources[due(sources, taken(sources, n))].items@,
            taken(sources, n)[due(sources, taken(sources, n))] as int,
            ready,
        ),
    ensures
        ({
            let now = taken(sources, n);
            let source = due(sources, now);
            let items = sources[source].items@;
            let k = now[source] as int;
            let next = now.update(source, (k + 1) as nat);
            let (tokens, bytes) = (item_tokens(items[k]), item_bytes(items[k]));
            let all = combined(tallies(sources, now));
            let given = tallies(sources, now)[source];
            &&& k < items.len()
            &&& items[k] is Ok
            &&& goes_on(sources, budget, n)
            &&& taken(sources, n + 1) == next
            &&& read_upto(items, k + 1, ready - 1)
            &&& tallies(sources, next) == tallies(sources, now).update(
                source,
                given.plus(held_out(now[source]), tokens, bytes),
            )
            &&& combined(tallies(sources, next)) == all.plus(held_out(now[source]), tokens, bytes)
            &&& given.docs() == k
            &&& given.valid_tokens + tokens <= u64::MAX
            &&& given.valid_bytes + bytes <= u64::MAX
            &&& given.train_bytes + bytes <= u64::MAX
            &&& all.train_tokens == total_at(sources, n)
            &&& all.train_tokens + all.valid_tokens + tokens <= u64::MAX
            &&& all.train_bytes + all.valid_bytes + bytes <= u64::MAX
            &&& all.train_docs + all.valid_docs + 1 <= u64::MAX
            &&& sum(next) == sum(now) + 1
            &&& sum(next) <= sum(doc_counts(sources))
        }),
{
    let now = taken(sources, n);
    let source = due(sources, now);
    let items = sources[source].items@;
    let k = now[source] as int;
    let next = now.update(source, (k + 1) as nat);
    drawing_goes_on(items, k, ready);
    assert(goes_on(sources, budget, n));
    draw_adds(sources, now, source);
    combined_bounds(sources, now);
    combined_bounds(sources, next);
    assert(taken(sources, n + 1) =~= next);
    volume_grows(items, k + 1);
    splits_partition(items.take(k + 1));
    splits_partition(items.take(k));
    assert(items.take(k + 1).drop_last() =~= items.take(k));
    sum_update(volumes(sources), source, 0);
    sum_update(byte_volumes(sources), source, 0);
    sum_update(now, source, (k + 1) as nat);
    assert(volumes(sources)[source] == volume(items));
    assert(byte_volumes(sources)[source] == weight(items));
}

/// Write at least `budget` training tokens at the requested token proportions.
pub fn mix_encoded(
    sources: &Vec<EncodedSource>,
    vocab_size: usize,
    eos: u16,
    budget: u64,
) -> (r: Result<Output, Error>)
    requires
        all_countable(sources@),
    ensures
        match mix_mistake(source_weights(sources@), budget as nat) {
            Some(mistake) => r matches Err(Error::InvalidMix(m)) && m@ == mistake@,
            None => exists|n: nat| #[trigger]
                ends_at(sources@, budget, n) && mixed(sources@, vocab_size, eos, budget, n, r),
        },
{
    let mut weights: Vec<u64> = Vec::new();
    let mut at: Vec<usize> = Vec::new();
    let mut i: usize = 0;
    while i < sources.len()
        invariant
            i <= sources.len(),
            weights@.len() == i,
            at@.len() == i,
            forall|k: int| 0 <= k < i ==> (#[trigger] weights@[k]) == sources@[k].weight,
            forall|k: int| 0 <= k < i ==> (#[trigger] at@[k]) == 0,
        decreases sources.len() - i,
    {
        weights.push(sources[i].weight);
        at.push(0);
        i = i + 1;
    }
    assert(nats(weights@) =~= source_weights(sources@));
    let mut blend = match Blend::new(weights, budget) {
        Ok(blend) => blend,
        Err(e) => {
            return Err(e);
        },
    };
    let mut train = Writer::create(vocab_size, eos);
    let mut valid = Writer::create(vocab_size, eos);
    let ghost mut n: nat = 0;
    proof {
        let none = taken(sources@, 0);
        assert(counts_of(at@) =~= none);
        assert forall|i: int| 0 <= i < sources@.len() implies (#[trigger] blend.mixer.sources@[i])@
            == tallies(sources@, none)[i] by {
            assert(sources@[i].items@.take(0).len() == 0);
        }
        assert forall|i: int| 0 <= i < sources@.len() implies (#[trigger] none[i])
            <= sources@[i].items@.len() by {}
        combined_zero(tallies(sources@, none));
    }
    loop
        invariant
            all_countable(sources@),
            blend.well_formed(),
            nats(blend.mixer.weights@) == source_weights(sources@),
            blend.mixer.budget == budget,
            blend.ready@.len() == sources@.len() == at@.len(),
            sources@.len() >= 2,
            counts_of(at@) == taken(sources@, n),
            forall|i: int|
                0 <= i < sources@.len() ==> (#[trigger] blend.mixer.sources@[i])@ == tallies(
                    sources@,
                    taken(sources@, n),
                )[i],
            forall|i: int|
                0 <= i < sources@.len() ==> read_upto(
                    sources@[i].items@,
                    #[trigger] at@[i] as int,
                    blend.ready@[i] as int,
                ),
            forall|m: nat| m < n ==> #[trigger] goes_on(sources@, budget, m),
            train.well_formed(),
            valid.well_formed(),
            train.tokens@ == drawn(sources@, n, false),
            valid.tokens@ == drawn(sources@, n, true),
            counted(
                train.meta,
                valid.meta,
                combined(tallies(sources@, taken(sources@, n))),
            ),
            train.meta.vocab_size == vocab_size,
            train.meta.eos == eos,
            valid.meta.vocab_size == vocab_size,
            valid.meta.eos == eos,
        ensures
            blend.mixer.total >= budget,
        decreases
                sum(doc_counts(sources@)) - sum(counts_of(at@)),
                (if blend.step() is Read {
                    1int
                } else {
                    0int
                }),
    {
        let ghost now = taken(sources@, n);
        proof {
            assert(train_tokens(blend.mixer.sources@) =~= tokens_at(sources@, now));
            assert forall|i: int| 0 <= i < sources@.len() implies (#[trigger] now[i])
                <= sources@[i].items@.len() by {
                assert(now[i] == at@[i]);
            }
            combined_bounds(sources@, now);
        }
        match blend.next() {
            Step::Done => {
                break;
            },
            Step::Read(source) => {
                let k = at[source];
                let ghost items = sources@[source as int].items@;
                let ghost before = blend.ready@;
                assert(due(sources@, now) == source);
                assert(now[source as int] == k);
                assert(read_upto(items, k as int, 0));
                match blend.fill(source, &sources[source].items, k, MIX_CHUNK) {
                    Ok(()) => {
                        proof {
                            reading_goes_on(items, k as int);
                            assert forall|i: int| 0 <= i < sources@.len() implies read_upto(
                                sources@[i].items@,
                                #[trigger] at@[i] as int,
                                blend.ready@[i] as int,
                            ) by {
                                assert(read_upto(
                                    sources@[i].items@,
                                    at@[i] as int,
                                    before[i] as int,
                                ));
                            }
                        }
                    },
                    Err(e) => {
                        proof {
                            reading_fails(items, k as int);
                            assert(blend.mixer.sources@[source as int]@ == tallies(
                                sources@,
                                now,
                            )[source as int]);
                            assert(Some(e) == draw_fault(sources@, budget, n));
                            assert(ends_at(sources@, budget, n));
                        }
                        return Err(e);
                    },
                }
            },
            Step::Draw(source) => {
                let k = at[source];
                let ghost items = sources@[source as int].items@;
                let ghost next = now.update(source as int, (k + 1) as nat);
                let ghost left = blend.ready@[source as int];
                proof {
                    assert(due(sources@, now) == source);
                    assert(now[source as int] == k);
                    assert(read_upto(items, k as int, left as int));
                    draw_follows(sources@, budget, n, left as int);
                    assert(blend.mixer.sources@[source as int]@ == tallies(
                        sources@,
                        now,
                    )[source as int]);
                }
                assert(k < sources[source as int].items.len());
                if let Ok(encoded) = &sources[source].items[k] {
                    assert(blend.mixer.has_room(
                        source as int,
                        encoded.ids.len() as int,
                        encoded.bytes as int,
                    ));
                    match blend.draw(source, encoded.ids.len(), encoded.bytes) {
                        Ok(true) => {
                            valid.push(&encoded.ids, encoded.bytes);
                        },
                        Ok(false) => {
                            train.push(&encoded.ids, encoded.bytes);
                        },
                        Err(e) => {
                            return Err(e);
                        },
                    }
                }
                let ghost was = at@;
                at.set(source, k + 1);
                proof {
                    assert(counts_of(at@) =~= next);
                    assert forall|i: int| 0 <= i < sources@.len() implies read_upto(
                        sources@[i].items@,
                        #[trigger] at@[i] as int,
                        blend.ready@[i] as int,
                    ) by {
                        if i != source {
                            assert(was[i] == at@[i]);
                            assert(read_upto(
                                sources@[i].items@,
                                was[i] as int,
                                blend.ready@[i] as int,
                            ));
                        }
                    }
                    assert forall|i: int| 0 <= i < sources@.len() implies (
                    #[trigger] blend.mixer.sources@[i])@ == tallies(sources@, next)[i] by {
                        if i != source {
                            assert(tallies(sources@, next)[i] == tallies(sources@, now)[i]);
                        }
                    }
                    n = n + 1;
                }
            },
        }
    }
    proof {
        assert(train_tokens(blend.mixer.sources@) =~= tokens_at(sources@, taken(sources@, n)));
        assert(ends_at(sources@, budget, n));
    }
    let train = train.finish();
    let valid = valid.finish();
    let prepared = Prepared { train: train.meta, valid: valid.meta, sources: blend.mixer.sources };
    let r = Ok(Output { prepared, train, valid });
    assert(mixed(sources@, vocab_size, eos, budget, n, r));
    r
}

/// Of the documents of a source, `at` are drawn and `ready` more are read: what is
/// left of a chunk without fault, or nothing, where a chunk ends.
pub open spec fn read_upto(items: Seq<Item>, at: int, ready: int) -> bool {
    let size = MIX_CHUNK as int;
    &&& 0 <= at <= items.len()
    &&& at % size != 0 || ready > 0 ==> chunk_fault(chunk_of(items, at)) is None
    &&& if ready > 0 {
        at + ready == if (at / size + 1) * size <= items.len() {
            (at / size + 1) * size
        } else {
            items.len() as int
        }
    } else {
        ready == 0 && (at % size == 0 || at == items.len())
    }
}

/// The integers of a list of counts.
pub open spec fn counts_of(values: Seq<usize>) -> Seq<nat> {
    values.map_values(|v: usize| v as nat)
}

proof fn combined_zero(tallies: Seq<Tally>)
    requires
        forall|i: int| 0 <= i < tallies.len() ==> (#[trigger] tallies[i]) == Tally::zero(),
    ensures
        combined(tallies) == Tally::zero(),
    decreases tallies.len(),
{
    if tallies.len() > 0 {
        assert forall|i: int| 0 <= i < tallies.drop_last().len() implies (
        #[trigger] tallies.drop_last()[i]) == Tally::zero() by {
            assert(tallies[i] == Tally::zero());
        }
        combined_zero(tallies.drop_last());
    }
}

/// The tokens of the last training document among `items`, 0 where there is none.
pub open spec fn last_train(items: Seq<Item>) -> nat
    decreases items.len(),
{
    if items.len() == 0 {
        0
    } else if held_out((items.len() - 1) as nat) {
        last_train(items.drop_last())
    } else {
        item_tokens(items.last())
    }
}

/// The tokens of the last training document that each source has given.
pub open spec fn last_at(sources: Seq<EncodedSource>, taken: Seq<nat>) -> Seq<nat> {
    Seq::new(sources.len(), |i: int| last_train(sources[i].items@.take(taken[i] as int)))
}

/// The training tokens of draw `n`.
pub open spec fn drawn_tokens(sources: Seq<EncodedSource>, n: nat) -> nat {
    let before = taken(sources, n);
    let i = due(sources, before);
    if held_out(before[i]) {
        0
    } else {
        item_tokens(sources[i].items@[before[i] as int])
    }
}

/// In a mixture each source stays within the last of its own training documents
/// of its weight, and the whole exceeds its budget by less than the document that
/// was drawn last.
pub proof fn mixtures_keep_their_shares(sources: Seq<EncodedSource>, budget: u64, n: nat)
    requires
        mix_mistake(source_weights(sources), budget as nat) is None,
        forall|m: nat| m < n ==> #[trigger] goes_on(sources, budget, m),
    ensures
        balanced(
            tokens_at(sources, taken(sources, n)),
            source_weights(sources),
            last_at(sources, taken(sources, n)),
        ),
        n == 0 ==> total_at(sources, n) == 0,
        n > 0 ==> total_at(sources, n) < budget + drawn_tokens(sources, (n - 1) as nat),
        taken(sources, n).len() == sources.len(),
        forall|i: int|
            0 <= i < sources.len() ==> (#[trigger] taken(sources, n)[i])
                <= sources[i].items@.len(),
    decreases n,
{
    let weights = source_weights(sources);
    if n == 0 {
        let tokens = tokens_at(sources, taken(sources, 0));
        let last = last_at(sources, taken(sources, 0));
        assert forall|i: int| 0 <= i < tokens.len() implies (#[trigger] tokens[i]) == 0 && last[i]
            == 0 by {
            assert(sources[i].items@.take(0).len() == 0);
        }
        sum_zero(tokens);
        assert forall|i: int, j: int| 0 <= i < tokens.len() && 0 <= j < tokens.len() implies (
        #[trigger] tokens[i]) * (#[trigger] weights[j]) <= tokens[j] * weights[i] + last[i]
            * weights[j] by {
            assert(0 * weights[j] == 0 && 0 * weights[i] == 0);
        }
    } else {
        let m = (n - 1) as nat;
        mixtures_keep_their_shares(sources, budget, m);
        assert(goes_on(sources, budget, m));
        let before = taken(sources, m);
        let tokens = tokens_at(sources, before);
        let last = last_at(sources, before);
        lightest_exists(tokens, weights);
        let i = due(sources, before);
        assert(is_lightest(tokens, weights, i));
        draw_adds(sources, before, i);
        let items = sources[i].items@;
        let k = before[i] as int;
        let new = drawn_tokens(sources, m);
        assert(items.take(k + 1).drop_last() =~= items.take(k));
        assert(items.take(k + 1).last() == items[k]);
        assert(tokens_at(sources, taken(sources, n)) =~= tokens.update(i, tokens[i] + new));
        if held_out(before[i]) {
            assert(last_at(sources, taken(sources, n)) =~= last);
            assert(tokens.update(i, tokens[i] + new) =~= tokens);
        } else {
            drawing_keeps_the_balance(tokens, weights, last, i, new);
            assert(last_at(sources, taken(sources, n)) =~= last.update(i, new));
        }
        sum_update(tokens, i, tokens[i] + new);
    }
}

proof fn lightest_exists(tokens: Seq<nat>, weights: Seq<nat>)
    requires
        tokens.len() == weights.len(),
        tokens.len() > 0,
        forall|i: int| 0 <= i < weights.len() ==> (#[trigger] weights[i]) > 0,
    ensures
        exists|i: int| is_lightest(tokens, weights, i),
    decreases tokens.len(),
{
    if tokens.len() == 1 {
        assert(is_lightest(tokens, weights, 0));
    } else {
        let t = tokens.drop_last();
        let w = weights.drop_last();
        assert forall|i: int| 0 <= i < w.len() implies (#[trigger] w[i]) > 0 by {
            assert(weights[i] > 0);
        }
        lightest_exists(t, w);
        let b = choose|i: int| is_lightest(t, w, i);
        let l = tokens.len() - 1;
        assert(weights[b] > 0 && weights[l] > 0);
        if tokens[l] * weights[b] < tokens[b] * weights[l] {
            assert forall|j: int| 0 <= j < tokens.len() implies (#[trigger] tokens[j]) * weights[l]
                > tokens[l] * weights[j] || (tokens[j] * weights[l] == tokens[l] * weights[j] && l
                <= j) by {
                if j < l {
                    assert(t[j] * w[b] >= t[b] * w[j]);
                    assert(weights[j] > 0);
                    lighter_chains(
                        tokens[l],
                        weights[l],
                        tokens[b],
                        weights[b],
                        tokens[j],
                        weights[j],
                    );
                }
            }
            assert(is_lightest(tokens, weights, l));
        } else {
            assert forall|j: int| 0 <= j < tokens.len() implies (#[trigger] tokens[j]) * weights[b]
                > tokens[b] * weights[j] || (tokens[j] * weights[b] == tokens[b] * weights[j] && b
                <= j) by {
                if j < l {
                    assert(t[j] * w[b] > t[b] * w[j] || (t[j] * w[b] == t[b] * w[j] && b <= j));
                }
            }
            assert(is_lightest(tokens, weights, b));
        }
    }
}

/// `item` is what becomes of `doc`: a document that was not read stays what it
/// is, one that was read is encoded, with the separator behind it.
pub open spec fn item_of(
    tokenizer: Tokenizer,
    doc: Result<String, corpus::Error>,
    item: Item,
) -> bool {
    match doc {
        Err(e) => item == Err::<Encoded, Error>(Error::Corpus(e)),
        Ok(text) => match item {
            Ok(encoded) => {
                &&& encoded.bytes == vstd::utf8::encode_utf8(text@).len() as usize
                &&& encoded.ids@.len() > 0
                &&& encoded.ids@.last() == tokenizer.end()
                &&& tokenizer.may_give(text@, Ok(encoded.ids@.drop_last()))
                &&& tokenizer::repeats(tokenizer.codec()) ==> tokenizer.ids(text@) == Ok::<
                    Seq<u16>,
                    Seq<char>,
                >(encoded.ids@.drop_last())
            },
            Err(Error::Tokenizer(tokenizer::Error::Tokenizers(why))) => {
                &&& tokenizer.may_give(text@, Err(why@))
                &&& tokenizer::repeats(tokenizer.codec()) ==> tokenizer.ids(text@) == Err::<
                    Seq<u16>,
                    Seq<char>,
                >(why@)
            },
            Err(_) => false,
        },
    }
}

/// `items` are what becomes of `docs`.
pub open spec fn items_of(
    tokenizer: Tokenizer,
    docs: Seq<Result<String, corpus::Error>>,
    items: Seq<Item>,
) -> bool {
    &&& items.len() == docs.len()
    &&& forall|i: int|
        0 <= i < docs.len() ==> item_of(tokenizer, #[trigger] docs[i], #[trigger] items[i])
}

/// Encode one document.
pub fn encode_doc(doc: &Result<String, corpus::Error>, tokenizer: &Tokenizer) -> (item: Item)
    ensures
        item_of(*tokenizer, *doc, item),
{
    match doc {
        Ok(text) => match tokenizer.encode(text.as_str()) {
            Ok(ids) => {
                proof {
                    if tokenizer::repeats(tokenizer.codec()) {
                        assert(ids@.drop_last() =~= tokenizer.ids(text@)->Ok_0);
                    }
                }
                Ok(Encoded { ids, bytes: text.as_str().len() })
            },
            Err(e) => Err(Error::Tokenizer(e)),
        },
        Err(e) => Err(Error::Corpus(e.copy())),
    }
}

/// Encode a list of documents.
pub fn encode_docs(docs: &Vec<Result<String, corpus::Error>>, tokenizer: &Tokenizer) -> (items: Vec<
    Item,
>)
    ensures
        items_of(*tokenizer, docs@, items@),
{
    let mut items: Vec<Item> = Vec::new();
    let mut i: usize = 0;
    while i < docs.len()
        invariant
            i <= docs.len(),
            items@.len() == i,
            forall|k: int|
                0 <= k < i ==> item_of(*tokenizer, #[trigger] docs@[k], #[trigger] items@[k]),
        decreases docs.len() - i,
    {
        items.push(encode_doc(&docs[i], tokenizer));
        i = i + 1;
    }
    items
}

/// The tokens and the bytes of a list of documents; `None` where sixty-four
/// bits do not count them.
fn measure(items: &Vec<Item>) -> (r: Option<(u64, u64)>)
    ensures
        match r {
            Some((tokens, bytes)) => tokens == volume(items@) && bytes == weight(items@),
            None => !countable(items@),
        },
{
    let mut tokens: u64 = 0;
    let mut bytes: u64 = 0;
    let mut i: usize = 0;
    while i < items.len()
        invariant
            i <= items.len(),
            tokens == volume(items@.take(i as int)),
            bytes == weight(items@.take(i as int)),
        decreases items.len() - i,
    {
        proof {
            assert(items@.take(i + 1).drop_last() =~= items@.take(i as int));
            assert(items@.take(i + 1).last() == items@[i as int]);
            volume_grows(items@, i + 1);
        }
        if let Ok(encoded) = &items[i] {
            if encoded.ids.len() as u64 > u64::MAX - tokens || encoded.bytes as u64 > u64::MAX
                - bytes {
                return None;
            }
            tokens = tokens + encoded.ids.len() as u64;
            bytes = bytes + encoded.bytes as u64;
        }
        i = i + 1;
    }
    assert(items@.take(i as int) =~= items@);
    Some((tokens, bytes))
}

/// Tokenise every document of a corpus into a training and a validation split.
pub fn run(docs: &Vec<Result<String, corpus::Error>>, tokenizer: &Tokenizer) -> (r: Result<
    Output,
    Error,
>)
    ensures
        exists|items: Seq<Item>| #[trigger]
            items_of(*tokenizer, docs@, items) && if countable(items) {
                ran(items, tokenizer::vocabulary_size(tokenizer.codec()), tokenizer.end(), r)
            } else {
                r == Err::<Output, Error>(Error::Uncountable)
            },
{
    let items = encode_docs(docs, tokenizer);
    match measure(&items) {
        Some(_) => run_encoded(&items, tokenizer.vocab_size(), tokenizer.eos()),
        None => Err(Error::Uncountable),
    }
}

/// A source of a mixture: its documents and its relative token weight.
pub struct MixSource<'a> {
    pub docs: &'a Vec<Result<String, corpus::Error>>,
    pub weight: u64,
}

/// `encoded` are what becomes of `sources`.
pub open spec fn sources_of(
    tokenizer: Tokenizer,
    sources: Seq<MixSource>,
    encoded: Seq<EncodedSource>,
) -> bool {
    &&& encoded.len() == sources.len()
    &&& forall|i: int|
        0 <= i < sources.len() ==> (#[trigger] encoded[i]).weight == sources[i].weight && items_of(
            tokenizer,
            sources[i].docs@,
            encoded[i].items@,
        )
}

fn all_measured(sources: &Vec<EncodedSource>) -> (r: bool)
    ensures
        r == all_countable(sources@),
{
    let mut tokens: u64 = 0;
    let mut bytes: u64 = 0;
    let mut docs: u64 = 0;
    let mut i: usize = 0;
    while i < sources.len()
        invariant
            i <= sources.len(),
            tokens == sum(volumes(sources@.take(i as int))),
            bytes == sum(byte_volumes(sources@.take(i as int))),
            docs == sum(doc_counts(sources@.take(i as int))),
        decreases sources.len() - i,
    {
        proof {
            let part = sources@.take(i + 1);
            assert(part.drop_last() =~= sources@.take(i as int));
            assert(volumes(part).drop_last() =~= volumes(sources@.take(i as int)));
            assert(byte_volumes(part).drop_last() =~= byte_volumes(sources@.take(i as int)));
            assert(doc_counts(part).drop_last() =~= doc_counts(sources@.take(i as int)));
            sums_grow(sources@, i + 1);
            sum_update(volumes(sources@), i as int, 0);
            sum_update(byte_volumes(sources@), i as int, 0);
        }
        match measure(&sources[i].items) {
            Some((t, b)) => {
                let d = sources[i].items.len() as u64;
                if t > u64::MAX - tokens || b > u64::MAX - bytes || d > u64::MAX - docs {
                    return false;
                }
                tokens = tokens + t;
                bytes = bytes + b;
                docs = docs + d;
            },
            None => {
                return false;
            },
        }
        i = i + 1;
    }
    assert(sources@.take(i as int) =~= sources@);
    true
}

proof fn sums_grow(sources: Seq<EncodedSource>, upto: int)
    requires
        0 <= upto <= sources.len(),
    ensures
        sum(volumes(sources.take(upto))) <= sum(volumes(sources)),
        sum(byte_volumes(sources.take(upto))) <= sum(byte_volumes(sources)),
        sum(doc_counts(sources.take(upto))) <= sum(doc_counts(sources)),
    decreases sources.len(),
{
    if upto == sources.len() {
        assert(sources.take(upto) =~= sources);
    } else {
        let rest = sources.drop_last();
        assert(rest.take(upto) =~= sources.take(upto));
        sums_grow(rest, upto);
        assert(volumes(sources).drop_last() =~= volumes(rest));
        assert(byte_volumes(sources).drop_last() =~= byte_volumes(rest));
        assert(doc_counts(sources).drop_last() =~= doc_counts(rest));
    }
}

/// The weights of the sources.
pub open spec fn mix_weights(sources: Seq<MixSource>) -> Seq<nat> {
    Seq::new(sources.len(), |i: int| sources[i].weight as nat)
}

/// Tokenise several corpora into at least `budget` training tokens, at the
/// requested token proportions.
pub fn mix(sources: &Vec<MixSource<'_>>, tokenizer: &Tokenizer, budget: u64) -> (r: Result<
    Output,
    Error,
>)
    ensures
        match mix_mistake(mix_weights(sources@), budget as nat) {
            Some(mistake) => r matches Err(Error::InvalidMix(m)) && m@ == mistake@,
            None => exists|encoded: Seq<EncodedSource>| #[trigger]
                sources_of(*tokenizer, sources@, encoded) && if all_countable(encoded) {
                    exists|n: nat| #[trigger]
                        ends_at(encoded, budget, n) && mixed(
                            encoded,
                            tokenizer::vocabulary_size(tokenizer.codec()),
                            tokenizer.end(),
                            budget,
                            n,
                            r,
                        )
                } else {
                    r == Err::<Output, Error>(Error::Uncountable)
                },
        },
{
    let mut weights: Vec<u64> = Vec::new();
    let mut i: usize = 0;
    while i < sources.len()
        invariant
            i <= sources.len(),
            weights@.len() == i,
            forall|k: int| 0 <= k < i ==> (#[trigger] weights@[k]) == sources@[k].weight,
        decreases sources.len() - i,
    {
        weights.push(sources[i].weight);
        i = i + 1;
    }
    assert(nats(weights@) =~= mix_weights(sources@));
    match Mixer::new(weights, budget) {
        Ok(_) => {},
        Err(e) => {
            return Err(e);
        },
    }
    let mut encoded: Vec<EncodedSource> = Vec::new();
    let mut i: usize = 0;
    while i < sources.len()
        invariant
            i <= sources.len(),
            encoded@.len() == i,
            forall|k: int|
                0 <= k < i ==> (#[trigger] encoded@[k]).weight == sources@[k].weight && items_of(
                    *tokenizer,
                    sources@[k].docs@,
                    encoded@[k].items@,
                ),
        decreases sources.len() - i,
    {
        let items = encode_docs(sources[i].docs, tokenizer);
        encoded.push(EncodedSource { items, weight: sources[i].weight });
        i = i + 1;
    }
    assert(source_weights(encoded@) =~= mix_weights(sources@));
    assert(sources_of(*tokenizer, sources@, encoded@));
    if all_measured(&encoded) {
        mix_encoded(&encoded, tokenizer.vocab_size(), tokenizer.eos(), budget)
    } else {
        Err(Error::Uncountable)
    }
}

/// `b` are the sources of `a` with every weight `c` times as large.
pub open spec fn scaled_by(a: Seq<EncodedSource>, b: Seq<EncodedSource>, c: nat) -> bool {
    &&& a.len() == b.len()
    &&& forall|i: int|
        0 <= i < a.len() ==> (#[trigger] a[i]).items@ == b[i].items@ && b[i].weight == c
            * a[i].weight
}

proof fn dues_are_relative(
    a: Seq<EncodedSource>,
    b: Seq<EncodedSource>,
    c: nat,
    budget: u64,
    at: Seq<nat>,
)
    requires
        c > 0,
        scaled_by(a, b, c),
        mix_mistake(source_weights(a), budget as nat) is None,
        at.len() == a.len(),
    ensures
        tallies(a, at) == tallies(b, at),
        tokens_at(a, at) == tokens_at(b, at),
        due(a, at) == due(b, at),
        0 <= due(a, at) < a.len(),
{
    let (v, w) = (source_weights(a), source_weights(b));
    assert forall|i: int| 0 <= i < a.len() implies tallies(a, at)[i] == tallies(b, at)[i] by {
        assert(a[i].items@ == b[i].items@);
    }
    assert(tallies(a, at) =~= tallies(b, at));
    let tokens = tokens_at(a, at);
    assert(tokens =~= tokens_at(b, at));
    assert forall|i: int| 0 <= i < v.len() implies (#[trigger] v[i]) > 0 by {
        assert(v[i] != 0);
    }
    lightest_exists(tokens, v);
    let i = due(a, at);
    assert(is_lightest(tokens, v, i));
    assert forall|j: int| 0 <= j < tokens.len() implies (#[trigger] tokens[j]) * w[i] > tokens[i]
        * w[j] || (tokens[j] * w[i] == tokens[i] * w[j] && i <= j) by {
        assert(a[i].items@ == b[i].items@ && a[j].items@ == b[j].items@);
        let (x, y) = (tokens[j] * v[i], tokens[i] * v[j]);
        assert(tokens[j] * w[i] == x * c) by (nonlinear_arith)
            requires
                w[i] == c * v[i],
                x == tokens[j] * v[i],
        ;
        assert(tokens[i] * w[j] == y * c) by (nonlinear_arith)
            requires
                w[j] == c * v[j],
                y == tokens[i] * v[j],
        ;
        assert(x > y ==> x * c > y * c) by (nonlinear_arith)
            requires
                c > 0,
        ;
    }
    assert(is_lightest(tokens, w, i));
    lightest_is_one(tokens, w, i);
}

proof fn draws_are_relative(
    a: Seq<EncodedSource>,
    b: Seq<EncodedSource>,
    c: nat,
    budget: u64,
    n: nat,
)
    requires
        c > 0,
        scaled_by(a, b, c),
        mix_mistake(source_weights(a), budget as nat) is None,
    ensures
        taken(a, n) == taken(b, n),
        taken(a, n).len() == a.len(),
        drawn(a, n, true) == drawn(b, n, true),
        drawn(a, n, false) == drawn(b, n, false),
        draw_fault(a, budget, n) == draw_fault(b, budget, n),
        goes_on(a, budget, n) == goes_on(b, budget, n),
    decreases n,
{
    if n == 0 {
        assert(taken(a, 0) =~= taken(b, 0));
    } else {
        let m = (n - 1) as nat;
        draws_are_relative(a, b, c, budget, m);
        dues_are_relative(a, b, c, budget, taken(a, m));
        let i = due(a, taken(a, m));
        assert(taken(a, n) =~= taken(b, n));
        assert(a[i].items@ == b[i].items@);
    }
    let at = taken(a, n);
    dues_are_relative(a, b, c, budget, at);
    assert(a[due(a, at)].items@ == b[due(a, at)].items@);
}

/// Weights are relative: `3:1` and `75:25` describe the same mixture. It is
/// refused for the same mistake, ends after the same draws and gives the same
/// result.
pub proof fn weights_are_relative(
    a: Seq<EncodedSource>,
    b: Seq<EncodedSource>,
    c: nat,
    vocab_size: usize,
    eos: u16,
    budget: u64,
    n: nat,
    r: Result<Output, Error>,
)
    requires
        c > 0,
        scaled_by(a, b, c),
    ensures
        mix_mistake(source_weights(a), budget as nat) == mix_mistake(
            source_weights(b),
            budget as nat,
        ),
        mix_mistake(source_weights(a), budget as nat) is None ==> {
            &&& taken(a, n) == taken(b, n)
            &&& ends_at(a, budget, n) == ends_at(b, budget, n)
            &&& mixed(a, vocab_size, eos, budget, n, r) == mixed(b, vocab_size, eos, budget, n, r)
        },
{
    let (v, w) = (source_weights(a), source_weights(b));
    assert forall|i: int| 0 <= i < v.len() implies ((#[trigger] v[i]) == 0) == (w[i] == 0) by {
        assert(a[i].items@ == b[i].items@);
        assert(w[i] == 0 <==> v[i] == 0) by (nonlinear_arith)
            requires
                w[i] == c * v[i],
                c > 0,
        ;
    }
    if exists|i: int| 0 <= i < w.len() && (#[trigger] w[i]) == 0 {
        let i = choose|i: int| 0 <= i < w.len() && (#[trigger] w[i]) == 0;
        assert(v[i] == 0);
    }
    if exists|i: int| 0 <= i < v.len() && (#[trigger] v[i]) == 0 {
        let i = choose|i: int| 0 <= i < v.len() && (#[trigger] v[i]) == 0;
        assert(w[i] == 0);
    }
    if mix_mistake(v, budget as nat) is None {
        assert forall|m: nat| #[trigger] goes_on(a, budget, m) == goes_on(b, budget, m) by {
            draws_are_relative(a, b, c, budget, m);
        }
        draws_are_relative(a, b, c, budget, n);
        dues_are_relative(a, b, c, budget, taken(a, n));
        if ends_at(a, budget, n) {
            assert forall|m: nat| m < n implies #[trigger] goes_on(b, budget, m) by {
                assert(goes_on(a, budget, m));
            }
        }
    }
}

/// Of every two hundred documents the first is held out.
pub proof fn every_two_hundredth_is_held_out(index: u64, r: bool)
    requires
        call_ensures(is_held_out, (index,), r),
    ensures
        r <==> exists|k: int| #[trigger] math::goes_into(200, index as int, k),
{
    math::nothing_is_left_over(200, index as int);
}

proof fn places_in_split(items: Seq<Item>, valid: bool) -> (at: Seq<int>)
    requires
        forall|i: int| 0 <= i < items.len() ==> (#[trigger] items[i]) is Ok,
    ensures
        at.len() == items.len(),
        forall|i: int|
            0 <= i < items.len() && ((i % 200 == 0) == valid) ==> {
                &&& 0 <= #[trigger] at[i]
                &&& at[i] + items[i]->Ok_0.ids@.len() <= split(items, valid).len()
                &&& split(items, valid).subrange(at[i], at[i] + items[i]->Ok_0.ids@.len())
                    == items[i]->Ok_0.ids@
            },
        forall|i: int, j: int|
            0 <= i < j < items.len() && ((i % 200 == 0) == valid) && ((j % 200 == 0) == valid)
                ==> #[trigger] at[i] + items[i]->Ok_0.ids@.len() <= #[trigger] at[j],
    decreases items.len(),
{
    if items.len() == 0 {
        Seq::empty()
    } else {
        let rest = items.drop_last();
        let n = rest.len() as int;
        assert forall|i: int| 0 <= i < rest.len() implies (#[trigger] rest[i]) is Ok by {
            assert(items[i] is Ok);
        }
        let before = places_in_split(rest, valid);
        let (old_split, new_split) = (split(rest, valid), split(items, valid));
        let at = before.push(old_split.len() as int);
        assert(items[n] is Ok);
        assert forall|i: int| 0 <= i < items.len() && ((i % 200 == 0) == valid) implies {
            &&& 0 <= #[trigger] at[i]
            &&& at[i] + items[i]->Ok_0.ids@.len() <= new_split.len()
            &&& new_split.subrange(at[i], at[i] + items[i]->Ok_0.ids@.len())
                == items[i]->Ok_0.ids@
        } by {
            let ids = items[i]->Ok_0.ids@;
            if i < n {
                assert(at[i] == before[i]);
                assert(rest[i] == items[i]);
                assert(new_split.subrange(at[i], at[i] + ids.len()) =~= old_split.subrange(
                    at[i],
                    at[i] + ids.len(),
                ));
            } else {
                assert(new_split.subrange(at[i], at[i] + ids.len()) =~= ids);
            }
        }
        assert forall|i: int, j: int|
            0 <= i < j < items.len() && ((i % 200 == 0) == valid) && ((j % 200 == 0)
                == valid) implies #[trigger] at[i] + items[i]->Ok_0.ids@.len()
            <= #[trigger] at[j] by {
            assert(at[i] == before[i]);
            assert(rest[i] == items[i]);
            if j < n {
                assert(at[j] == before[j]);
                assert(rest[j] == items[j]);
            }
        }
        at
    }
}

/// A plain pass keeps every document whole and writes it to one split, the held-out
/// ones to the validation split and the others to the training split, in their
/// order and with nothing else between them. `at` says where each starts in its
/// split.
pub proof fn documents_stay_whole(
    items: Vec<Item>,
    vocab_size: usize,
    eos: u16,
    out: Output,
) -> (at: Seq<int>)
    requires
        countable(items@),
        call_ensures(run_encoded, (&items, vocab_size, eos), Ok(out)),
    ensures
        at.len() == items@.len(),
        forall|i: int| 0 <= i < items@.len() ==> (#[trigger] items@[i]) is Ok,
        forall|i: int|
            0 <= i < items@.len() ==> {
                let tokens = if i % 200 == 0 {
                    out.valid.tokens@
                } else {
                    out.train.tokens@
                };
                let ids = items@[i]->Ok_0.ids@;
                &&& 0 <= #[trigger] at[i]
                &&& at[i] + ids.len() <= tokens.len()
                &&& tokens.subrange(at[i], at[i] + ids.len()) == ids
            },
        forall|i: int, j: int|
            0 <= i < j < items@.len() && ((i % 200 == 0) == (j % 200 == 0)) ==> #[trigger] at[i]
                + items@[i]->Ok_0.ids@.len() <= #[trigger] at[j],
        out.train.tokens@.len() + out.valid.tokens@.len() == volume(items@),
        out.train.meta.tokens == out.train.tokens@.len(),
        out.valid.meta.tokens == out.valid.tokens@.len(),
        out.train.meta.docs + out.valid.meta.docs == items@.len(),
        out.train.meta.bytes + out.valid.meta.bytes == weight(items@),
        items@.len() > 0 ==> out.valid.meta.docs == (items@.len() - 1) / 200 + 1,
        out.train.meta.vocab_size == vocab_size,
        out.valid.meta.vocab_size == vocab_size,
        out.train.meta.eos == eos,
        out.valid.meta.eos == eos,
        out.prepared.train == out.train.meta,
        out.prepared.valid == out.valid.meta,
{
    let all = items@;
    let r: Result<Output, Error> = Ok(out);
    assert(ran(all, vocab_size, eos, r));
    no_fault_is_ok(all, 0);
    assert forall|i: int| 0 <= i < all.len() implies (#[trigger] all[i]) is Ok by {}
    splits_partition(all);
    splits_are_counted(all);
    let (a, b) = (places_in_split(all, true), places_in_split(all, false));
    let at = Seq::new(
        all.len(),
        |i: int|
            if i % 200 == 0 {
                a[i]
            } else {
                b[i]
            },
    );
    assert forall|i: int| 0 <= i < all.len() implies {
        let tokens = if i % 200 == 0 {
            out.valid.tokens@
        } else {
            out.train.tokens@
        };
        let ids = all[i]->Ok_0.ids@;
        &&& 0 <= #[trigger] at[i]
        &&& at[i] + ids.len() <= tokens.len()
        &&& tokens.subrange(at[i], at[i] + ids.len()) == ids
    } by {
        if i % 200 == 0 {
            assert(at[i] == a[i]);
        } else {
            assert(at[i] == b[i]);
        }
    }
    assert forall|i: int, j: int|
        0 <= i < j < all.len() && ((i % 200 == 0) == (j % 200 == 0)) implies #[trigger] at[i]
        + all[i]->Ok_0.ids@.len() <= #[trigger] at[j] by {
        if i % 200 == 0 {
            assert(a[i] + all[i]->Ok_0.ids@.len() <= a[j]);
        } else {
            assert(b[i] + all[i]->Ok_0.ids@.len() <= b[j]);
        }
    }
    at
}

proof fn no_fault_is_ok(items: Seq<Item>, from: int)
    requires
        0 <= from,
        fault_from(items, from, CHUNK as int) is None,
    ensures
        forall|i: int| from <= i < items.len() ==> (#[trigger] items[i]) is Ok,
    decreases
            (if from < items.len() {
                items.len() - from
            } else {
                0
            }),
{
    if from < items.len() {
        let chunk = chunk_at(items, from, CHUNK as int);
        no_error_is_ok(chunk);
        no_fault_is_ok(items, from + CHUNK);
        assert forall|i: int| from <= i < items.len() implies (#[trigger] items[i]) is Ok by {
            if i < from + CHUNK {
                assert(chunk[i - from] == items[i]);
            }
        }
    }
}

proof fn first_error_is(items: Seq<Item>, corpus_only: bool)
    ensures
        match first_error(items, corpus_only) {
            Some(e) => exists|k: int|
                {
                    &&& 0 <= k < items.len()
                    &&& #[trigger] items[k] == Err::<Encoded, Error>(e)
                    &&& corpus_only ==> e is Corpus
                    &&& forall|j: int|
                        0 <= j < k ==> ((#[trigger] items[j]) is Ok || (corpus_only
                            && !(items[j]->Err_0 is Corpus)))
                },
            None => forall|j: int|
                0 <= j < items.len() ==> ((#[trigger] items[j]) is Ok || (corpus_only
                    && !(items[j]->Err_0 is Corpus))),
        },
    decreases items.len(),
{
    if items.len() > 0 {
        let rest = items.drop_last();
        let n = rest.len() as int;
        first_error_is(rest, corpus_only);
        assert forall|j: int| 0 <= j < n implies #[trigger] items[j] == rest[j] by {}
        if let Some(e) = first_error(rest, corpus_only) {
            let k = choose|k: int|
                {
                    &&& 0 <= k < rest.len()
                    &&& #[trigger] rest[k] == Err::<Encoded, Error>(e)
                    &&& corpus_only ==> e is Corpus
                    &&& forall|j: int|
                        0 <= j < k ==> ((#[trigger] rest[j]) is Ok || (corpus_only
                            && !(rest[j]->Err_0 is Corpus)))
                };
            assert(items[k] == Err::<Encoded, Error>(e));
            assert forall|j: int| 0 <= j < k implies ((#[trigger] items[j]) is Ok || (corpus_only
                && !(items[j]->Err_0 is Corpus))) by {
                assert(rest[j] is Ok || (corpus_only && !(rest[j]->Err_0 is Corpus)));
            }
        } else {
            assert forall|j: int| 0 <= j < n implies ((#[trigger] items[j]) is Ok || (corpus_only
                && !(items[j]->Err_0 is Corpus))) by {
                assert(rest[j] is Ok || (corpus_only && !(rest[j]->Err_0 is Corpus)));
            }
            if let Some(e) = first_error(items, corpus_only) {
                assert(items[n] == Err::<Encoded, Error>(e));
            }
        }
    }
}

/// A chunk fails for the first of its documents that cannot be read, and, where all
/// can, for the first that cannot be encoded.
pub proof fn unreadable_documents_come_first(
    items: Vec<Item>,
    from: usize,
    size: usize,
    r: Option<Error>,
    k: int,
)
    requires
        from <= items@.len(),
        call_ensures(find_fault, (&items, from, size), r),
        from <= k < items@.len(),
        k < from + size,
        items@[k] is Err,
        forall|j: int|
            from <= j < k ==> ((#[trigger] items@[j]) is Ok || (items@[k]->Err_0 is Corpus && !(
            items@[j]->Err_0 is Corpus))),
        !(items@[k]->Err_0 is Corpus) ==> forall|j: int|
            from <= j < items@.len() && j < from + size ==> !((#[trigger] items@[j]) is Err
                && items@[j]->Err_0 is Corpus),
    ensures
        r == Some(items@[k]->Err_0),
{
    let chunk = chunk_at(items@, from as int, size as int);
    first_error_is(chunk, true);
    first_error_is(chunk, false);
    assert forall|j: int| 0 <= j < chunk.len() implies #[trigger] chunk[j] == items@[from + j] by {}
    assert(chunk[k - from] == items@[k]);
    let e = items@[k]->Err_0;
    if e is Corpus {
        let found = first_error(chunk, true)->0;
        let at = choose|at: int|
            {
                &&& 0 <= at < chunk.len()
                &&& #[trigger] chunk[at] == Err::<Encoded, Error>(found)
                &&& found is Corpus
                &&& forall|j: int|
                    0 <= j < at ==> ((#[trigger] chunk[j]) is Ok || !(chunk[j]->Err_0 is Corpus))
            };
        if at < k - from {
            assert(items@[from + at] is Ok || !(items@[from + at]->Err_0 is Corpus));
        }
        assert(at == k - from);
    } else {
        if let Some(found) = first_error(chunk, true) {
            let at = choose|at: int|
                {
                    &&& 0 <= at < chunk.len()
                    &&& #[trigger] chunk[at] == Err::<Encoded, Error>(found)
                    &&& found is Corpus
                };
            assert(items@[from + at] is Err && items@[from + at]->Err_0 is Corpus);
        }
        let found = first_error(chunk, false)->0;
        let at = choose|at: int|
            {
                &&& 0 <= at < chunk.len()
                &&& #[trigger] chunk[at] == Err::<Encoded, Error>(found)
                &&& forall|j: int| 0 <= j < at ==> (#[trigger] chunk[j]) is Ok
            };
        if at < k - from {
            assert(items@[from + at] is Ok);
        }
        assert(at == k - from);
    }
}

/// A chunk without an error has no fault.
pub proof fn sound_chunks_have_no_fault(items: Vec<Item>, from: usize, size: usize, r: Option<Error>)
    requires
        from <= items@.len(),
        call_ensures(find_fault, (&items, from, size), r),
        forall|j: int|
            from <= j < items@.len() && j < from + size ==> (#[trigger] items@[j]) is Ok,
    ensures
        r is None,
{
    let chunk = chunk_at(items@, from as int, size as int);
    first_error_is(chunk, true);
    first_error_is(chunk, false);
    assert forall|j: int| 0 <= j < chunk.len() implies (#[trigger] chunk[j]) is Ok by {
        assert(chunk[j] == items@[from + j]);
    }
}

proof fn faults_are_those_of_chunks(items: Seq<Item>, from: int, k: int)
    requires
        0 <= from <= k,
        from % (CHUNK as int) == 0,
        k % (CHUNK as int) == 0,
        k < items.len(),
        forall|j: int| from <= j < k ==> (#[trigger] items[j]) is Ok,
        chunk_fault(chunk_at(items, k, CHUNK as int)) is Some,
    ensures
        fault_from(items, from, CHUNK as int) == chunk_fault(chunk_at(items, k, CHUNK as int)),
    decreases k - from,
{
    if from < k {
        let chunk = chunk_at(items, from, CHUNK as int);
        assert(from + CHUNK <= k);
        assert forall|j: int| 0 <= j < chunk.len() implies (#[trigger] chunk[j]) is Ok by {
            assert(chunk[j] == items[from + j]);
        }
        first_error_is(chunk, true);
        first_error_is(chunk, false);
        faults_are_those_of_chunks(items, from + CHUNK, k);
    }
}

/// A pass over documents without an error comes to its end; otherwise it breaks off
/// for the fault of the first chunk that has one.
pub proof fn passes_break_off_at_the_first_fault(
    items: Vec<Item>,
    vocab_size: usize,
    eos: u16,
    r: Result<Output, Error>,
    from: usize,
    fault: Option<Error>,
)
    requires
        countable(items@),
        call_ensures(run_encoded, (&items, vocab_size, eos), r),
        from < items@.len(),
        from % 4096 == 0,
        call_ensures(find_fault, (&items, from, 4096usize), fault),
        forall|j: int| 0 <= j < from ==> (#[trigger] items@[j]) is Ok,
    ensures
        fault is Some ==> r == Err::<Output, Error>(fault->0),
        (forall|j: int| 0 <= j < items@.len() ==> (#[trigger] items@[j]) is Ok) ==> r is Ok,
{
    if fault is Some {
        faults_are_those_of_chunks(items@, 0, from as int);
    }
    if forall|j: int| 0 <= j < items@.len() ==> (#[trigger] items@[j]) is Ok {
        sound_items_have_no_fault(items@, 0);
    }
}

proof fn sound_items_have_no_fault(items: Seq<Item>, from: int)
    requires
        0 <= from,
        forall|j: int| 0 <= j < items.len() ==> (#[trigger] items[j]) is Ok,
    ensures
        fault_from(items, from, CHUNK as int) is None,
    decreases
            (if from < items.len() {
                items.len() - from
            } else {
                0
            }),
{
    if from < items.len() {
        let chunk = chunk_at(items, from, CHUNK as int);
        first_error_is(chunk, true);
        first_error_is(chunk, false);
        assert forall|j: int| 0 <= j < chunk.len() implies (#[trigger] chunk[j]) is Ok by {
            assert(chunk[j] == items[from + j]);
        }
        sound_items_have_no_fault(items, from + CHUNK);
    }
}

/// The source to draw from has the fewest training tokens for its weight, and is
/// the first of those that have as few.
pub proof fn the_source_behind_is_drawn_from(m: Mixer, r: usize, other: int)
    requires
        m.well_formed(),
        call_ensures(Mixer::lightest, (&m,), r),
        0 <= other < m.sources@.len(),
    ensures
        r < m.sources@.len(),
        m.sources@[r as int].train_tokens * m.weights@[other] <= m.sources@[other].train_tokens
            * m.weights@[r as int],
        other < r ==> m.sources@[r as int].train_tokens * m.weights@[other]
            < m.sources@[other].train_tokens * m.weights@[r as int],
{
    let tokens = train_tokens(m.sources@);
    let weights = nats(m.weights@);
    assert(tokens[other] == m.sources@[other].train_tokens);
    assert(tokens[r as int] == m.sources@[r as int].train_tokens);
    assert(weights[other] == m.weights@[other]);
    assert(weights[r as int] == m.weights@[r as int]);
    assert(tokens[other] * weights[r as int] >= tokens[r as int] * weights[other]);
}

/// Each draw of a mixture takes the next document of the source that is furthest
/// behind its weight, and of no other.
pub proof fn each_draw_takes_one_document(
    sources: Seq<EncodedSource>,
    budget: u64,
    n: nat,
    other: int,
) -> (i: int)
    requires
        mix_mistake(source_weights(sources), budget as nat) is None,
        forall|m: nat| m < n ==> #[trigger] goes_on(sources, budget, m),
        0 <= other < sources.len(),
    ensures
        0 <= i < sources.len(),
        taken(sources, 0)[other] == 0,
        taken(sources, n + 1)[i] == taken(sources, n)[i] + 1,
        other != i ==> taken(sources, n + 1)[other] == taken(sources, n)[other],
        tokens_at(sources, taken(sources, n))[i] * sources[other].weight <= tokens_at(
            sources,
            taken(sources, n),
        )[other] * sources[i].weight,
        other < i ==> tokens_at(sources, taken(sources, n))[i] * sources[other].weight < tokens_at(
            sources,
            taken(sources, n),
        )[other] * sources[i].weight,
        forall|valid: bool|
            #![trigger drawn(sources, n + 1, valid)]
            (taken(sources, n)[i] % 200 == 0) == valid ==> drawn(sources, n + 1, valid) == drawn(
                sources,
                n,
                valid,
            ) + sources[i].items@[taken(sources, n)[i] as int]->Ok_0.ids@,
        forall|valid: bool|
            #![trigger drawn(sources, n + 1, valid)]
            (taken(sources, n)[i] % 200 == 0) != valid ==> drawn(sources, n + 1, valid) == drawn(
                sources,
                n,
                valid,
            ),
{
    mixtures_keep_their_shares(sources, budget, n);
    let before = taken(sources, n);
    let tokens = tokens_at(sources, before);
    let weights = source_weights(sources);
    lightest_exists(tokens, weights);
    let i = due(sources, before);
    assert(is_lightest(tokens, weights, i));
    assert(tokens[other] * weights[i] >= tokens[i] * weights[other]);
    assert(weights[other] == sources[other].weight && weights[i] == sources[i].weight);
    i
}

/// A mixture needs two sources, a budget and weights above zero. Where it has them
/// and comes to its end, it has written what it drew, up to the first draw that
/// brings it to its budget in training tokens, and its sources have given what it
/// has written. `n` is how many draws that took.
pub proof fn mixtures_reach_their_budget(
    sources: Vec<EncodedSource>,
    vocab_size: usize,
    eos: u16,
    budget: u64,
    r: Result<Output, Error>,
    k: int,
) -> (n: nat)
    requires
        all_countable(sources@),
        call_ensures(mix_encoded, (&sources, vocab_size, eos, budget), r),
    ensures
        sources@.len() < 2 ==> r is Err && r->Err_0 is InvalidMix,
        budget == 0 ==> r is Err && r->Err_0 is InvalidMix,
        0 <= k < sources@.len() && sources@[k].weight == 0 ==> r is Err && r->Err_0 is InvalidMix,
        r matches Ok(out) ==> {
            &&& out.train.tokens@ == drawn(sources@, n, false)
            &&& out.valid.tokens@ == drawn(sources@, n, true)
            &&& forall|m: nat| m < n ==> #[trigger] goes_on(sources@, budget, m)
            &&& n > 0 ==> total_at(sources@, (n - 1) as nat) < budget
            &&& out.train.tokens@.len() >= budget
            &&& out.train.meta.tokens == out.train.tokens@.len()
            &&& out.valid.meta.tokens == out.valid.tokens@.len()
            &&& out.prepared.train == out.train.meta
            &&& out.prepared.valid == out.valid.meta
            &&& out.prepared.sources@.len() == sources@.len()
            &&& sum(train_tokens(out.prepared.sources@)) == out.train.tokens@.len()
            &&& out.train.meta.vocab_size == vocab_size
            &&& out.valid.meta.vocab_size == vocab_size
            &&& out.train.meta.eos == eos
            &&& out.valid.meta.eos == eos
        },
{
    let weights = source_weights(sources@);
    if 0 <= k < sources@.len() && sources@[k].weight == 0 {
        assert(weights[k] == 0);
    }
    if let Ok(out) = r {
        assert(mix_mistake(weights, budget as nat) is None);
        let n = choose|n: nat| #[trigger]
            ends_at(sources@, budget, n) && mixed(sources@, vocab_size, eos, budget, n, r);
        mixtures_keep_their_shares(sources@, budget, n);
        let at = taken(sources@, n);
        combined_bounds(sources@, at);
        assert(train_tokens(out.prepared.sources@) =~= tokens_at(sources@, at)) by {
            assert forall|i: int| 0 <= i < sources@.len() implies train_tokens(
                out.prepared.sources@,
            )[i] == tokens_at(sources@, at)[i] by {
                assert(out.prepared.sources@[i]@ == tallies(sources@, at)[i]);
            }
        }
        if n > 0 {
            assert(goes_on(sources@, budget, (n - 1) as nat));
        }
        n
    } else {
        0
    }
}

/// A document that was read is encoded with the end of the text behind it, and
/// counts the bytes of its text; one that was not stays the error that it is.
pub proof fn documents_end_their_text(
    doc: Result<String, corpus::Error>,
    tokenizer: Tokenizer,
    item: Item,
)
    requires
        call_ensures(encode_doc, (&doc, &tokenizer), item),
    ensures
        doc is Err ==> item == Err::<Encoded, Error>(Error::Corpus(doc->Err_0)),
        doc is Ok && item is Ok ==> {
            let ids = item->Ok_0.ids@;
            &&& ids.len() > 0
            &&& ids[ids.len() - 1] == tokenizer.end()
            &&& tokenizer.may_give(doc->Ok_0@, Ok(ids.take(ids.len() - 1)))
            &&& tokenizer::repeats(tokenizer.codec()) ==> tokenizer.ids(doc->Ok_0@) == Ok::<
                Seq<u16>,
                Seq<char>,
            >(ids.take(ids.len() - 1))
            &&& vstd::utf8::encode_utf8(doc->Ok_0@).len() <= usize::MAX ==> item->Ok_0.bytes
                == vstd::utf8::encode_utf8(doc->Ok_0@).len()
        },
{
    if item is Ok {
        let ids = item->Ok_0.ids@;
        assert(ids.drop_last() =~= ids.take(ids.len() - 1));
    }
}

/// A mixture of documents without an error breaks off where the source that it has
/// to draw from has given all that it has, and says which one and how much that was.
pub proof fn mixtures_break_off_at_an_empty_source(
    sources: Vec<EncodedSource>,
    vocab_size: usize,
    eos: u16,
    budget: u64,
    e: Error,
)
    requires
        all_countable(sources@),
        call_ensures(mix_encoded, (&sources, vocab_size, eos, budget), Err(e)),
        sources@.len() >= 2,
        budget > 0,
        forall|i: int| 0 <= i < sources@.len() ==> (#[trigger] sources@[i]).weight > 0,
        forall|i: int, j: int|
            0 <= i < sources@.len() && 0 <= j < sources@[i].items@.len() ==> (
            #[trigger] sources@[i].items@[j]) is Ok,
    ensures
        e matches Error::Exhausted { source, train_tokens, requested_tokens } && {
            &&& source < sources@.len()
            &&& requested_tokens == budget
            &&& train_tokens == split(sources@[source as int].items@, false).len()
        },
{
    let all = sources@;
    let weights = source_weights(all);
    assert forall|i: int| 0 <= i < weights.len() implies (#[trigger] weights[i]) > 0 by {
        assert(all[i].weight > 0);
    }
    let r: Result<Output, Error> = Err(e);
    let n = choose|n: nat| #[trigger]
        ends_at(all, budget, n) && mixed(all, vocab_size, eos, budget, n, r);
    mixtures_keep_their_shares(all, budget, n);
    let now = taken(all, n);
    let tokens = tokens_at(all, now);
    lightest_exists(tokens, weights);
    let i = due(all, now);
    assert(is_lightest(tokens, weights, i));
    let items = all[i].items@;
    let chunk = chunk_of(items, now[i] as int);
    first_error_is(chunk, true);
    first_error_is(chunk, false);
    let from = now[i] as int / 256 * 256;
    assert forall|j: int| 0 <= j < chunk.len() implies (#[trigger] chunk[j]) is Ok by {
        assert(chunk[j] == items[from + j]);
        assert(all[i].items@[from + j] is Ok);
    }
    assert(now[i] <= items.len());
    assert(items.take(items.len() as int) =~= items);
    assert forall|j: int| 0 <= j < items.len() implies (#[trigger] items[j]) is Ok by {
        assert(all[i].items@[j] is Ok);
    }
    splits_are_counted(items);
    splits_partition(items);
    assert(tokens[i] == tally(items).train_tokens);
    sum_update(volumes(all), i, 0);
    assert(volumes(all)[i] == volume(items));
    assert(i < usize::MAX) by {
        assert(sources.len() <= usize::MAX);
    }
}

/// A document of a source is counted by its place among them: one in two hundred is
/// held out, and only the others count towards the budget. No other source and
/// neither weights nor budget change.
pub proof fn documents_are_counted_where_they_go(source: usize, tokens: usize, bytes: usize)
    ensures
        forall|m: &mut Mixer, valid: bool|
            m.well_formed() && source < m.sources@.len() && #[trigger] call_ensures(
                Mixer::record,
                (m, source, tokens, bytes),
                valid,
            ) ==> {
                let (was, now) = (m.sources@[source as int], final(m).sources@[source as int]);
                &&& valid <==> (was.train_docs + was.valid_docs) % 200 == 0
                &&& valid ==> {
                    &&& now.valid_tokens == was.valid_tokens + tokens
                    &&& now.valid_docs == was.valid_docs + 1
                    &&& now.valid_bytes == was.valid_bytes + bytes
                    &&& now.train_tokens == was.train_tokens
                    &&& now.train_docs == was.train_docs
                    &&& now.train_bytes == was.train_bytes
                    &&& final(m).total == m.total
                }
                &&& !valid ==> {
                    &&& now.train_tokens == was.train_tokens + tokens
                    &&& now.train_docs == was.train_docs + 1
                    &&& now.train_bytes == was.train_bytes + bytes
                    &&& now.valid_tokens == was.valid_tokens
                    &&& now.valid_docs == was.valid_docs
                    &&& now.valid_bytes == was.valid_bytes
                    &&& final(m).total == m.total + tokens
                }
                &&& final(m).weights == m.weights
                &&& final(m).budget == m.budget
                &&& final(m).sources@.len() == m.sources@.len()
            },
{
    assert forall|m: &mut Mixer, valid: bool|
        m.well_formed() && source < m.sources@.len() && #[trigger] call_ensures(
            Mixer::record,
            (m, source, tokens, bytes),
            valid,
        ) implies final(m).sources@[source as int]@ == m.sources@[source as int]@.plus(
        valid,
        tokens as nat,
        bytes as nat,
    ) by {}
}

/// A mixture starts with nothing drawn and nothing read, where it has two sources, a
/// budget and weights above zero, and is refused otherwise.
pub proof fn mixtures_start_with_nothing(weights: Vec<u64>, budget: u64, r: Result<Blend, Error>, i: int)
    requires
        call_ensures(Blend::new, (weights, budget), r),
        0 <= i < weights@.len(),
    ensures
        weights@.len() < 2 || budget == 0 || weights@[i] == 0 ==> r is Err && r->Err_0
            is InvalidMix,
        r is Ok ==> {
            let b = r->Ok_0;
            &&& b.mixer.weights == weights
            &&& b.mixer.budget == budget
            &&& b.mixer.sources@.len() == weights@.len()
            &&& b.ready@.len() == weights@.len()
            &&& b.mixer.total == 0
        },
{
    assert(nats(weights@)[i] == weights@[i]);
    if let Ok(b) = r {
        let tokens = train_tokens(b.mixer.sources@);
        fresh_sources_are_empty(weights, budget, b);
        sum_zero(tokens);
    }
}

proof fn fresh_sources_are_empty(weights: Vec<u64>, budget: u64, b: Blend)
    requires
        call_ensures(Blend::new, (weights, budget), Ok(b)),
    ensures
        forall|i: int|
            0 <= i < train_tokens(b.mixer.sources@).len() ==> (#[trigger] train_tokens(
                b.mixer.sources@,
            )[i]) == 0,
{
    let r: Result<Blend, Error> = Ok(b);
    assert(mix_mistake(nats(weights@), budget as nat) is None);
    assert forall|i: int| 0 <= i < train_tokens(b.mixer.sources@).len() implies (
    #[trigger] train_tokens(b.mixer.sources@)[i]) == 0 by {
        assert(b.mixer.sources@[i]@ == Tally::zero());
    }
}

/// A mixture is done once it has its budget. Until then the source that is furthest
/// behind is drawn from, and read where nothing of it is ready.
pub proof fn mixtures_ask_for_the_source_behind(b: Blend, r: Step, source: usize)
    requires
        b.well_formed(),
        call_ensures(Blend::next, (&b,), r),
        call_ensures(Mixer::lightest, (&b.mixer,), source),
    ensures
        r is Done <==> b.mixer.total >= b.mixer.budget,
        !(r is Done) ==> r == if b.ready@[source as int] == 0 {
            Step::Read(source)
        } else {
            Step::Draw(source)
        },
{
}

/// Drawing a document of a source leaves one less of it ready, and counts it; a
/// chunk that is read makes all its documents ready, and nothing else.
pub proof fn documents_are_drawn_from_what_is_ready(
    source: usize,
    tokens: usize,
    bytes: usize,
    items: Vec<Item>,
    from: usize,
    size: usize,
)
    ensures
        forall|b: &mut Blend, r: Result<bool, Error>|
            b.well_formed() && source < b.ready@.len() && b.ready@[source as int] > 0
                && #[trigger] call_ensures(Blend::draw, (b, source, tokens, bytes), r) ==> {
                &&& r is Ok ==> final(b).ready@ == b.ready@.update(
                    source as int,
                    (b.ready@[source as int] - 1) as usize,
                )
                &&& r is Ok ==> b.mixer.recorded(
                    source as int,
                    tokens as nat,
                    bytes as nat,
                    r->Ok_0,
                    final(b).mixer,
                )
                &&& r is Err ==> r->Err_0 is Uncountable && *final(b) == *b
            },
        forall|b: &mut Blend, r: Result<(), Error>|
            b.well_formed() && source < b.ready@.len() && from <= items@.len()
                && #[trigger] call_ensures(Blend::fill, (b, source, &items, from, size), r) ==> {
                &&& final(b).mixer == b.mixer
                &&& r is Err ==> final(b).ready@ == b.ready@
                &&& r is Ok ==> final(b).ready@ == b.ready@.update(
                    source as int,
                    (if from + size <= items@.len() {
                        size as int
                    } else {
                        items@.len() - from
                    }) as usize,
                )
            },
{
}

/// A pass is told of a whole chunk which of its documents are held out, counting
/// on from those that it has taken in, or why the chunk fails, which leaves it where
/// it was.
pub proof fn passes_count_their_documents(items: Vec<Item>, from: usize, size: usize, begun: Pass)
    requires
        from <= items@.len(),
        call_ensures(Pass::begin, (), begun),
    ensures
        begun.index == 0,
        forall|p: &mut Pass, r: Result<Vec<bool>, Error>| #[trigger]
            call_ensures(Pass::take, (p, &items, from, size), r) ==> {
                let n = if from + size <= items@.len() {
                    size as int
                } else {
                    items@.len() - from
                };
                &&& r is Err ==> final(p).index == p.index
                &&& r matches Ok(held) ==> {
                    &&& held@.len() == n
                    &&& final(p).index == p.index + n
                    &&& forall|i: int|
                        0 <= i < n ==> (#[trigger] held@[i] <==> (p.index + i) % 200 == 0)
                }
            },
{
}

/// What the only source of two splits gave is what they hold.
pub proof fn the_only_source_gave_it_all(train: Meta, valid: Meta, r: SourcePrepared)
    requires
        call_ensures(SourcePrepared::of, (&train, &valid), r),
    ensures
        (r.train_tokens, r.train_docs, r.train_bytes) == (train.tokens, train.docs, train.bytes),
        (r.valid_tokens, r.valid_docs, r.valid_bytes) == (valid.tokens, valid.docs, valid.bytes),
{
}

/// A pass over a corpus encodes each document and makes of them what a pass over
/// encoded documents makes, marked with the vocabulary that encoded them.
pub proof fn corpora_are_encoded_and_split(
    docs: Vec<Result<String, corpus::Error>>,
    tokenizer: Tokenizer,
    out: Output,
) -> (items: Seq<Item>)
    requires
        call_ensures(run, (&docs, &tokenizer), Ok(out)),
    ensures
        items_of(tokenizer, docs@, items),
        forall|i: int| 0 <= i < items.len() ==> (#[trigger] items[i]) is Ok,
        out.train.tokens@ == split(items, false),
        out.valid.tokens@ == split(items, true),
        out.train.meta.docs + out.valid.meta.docs == docs@.len(),
        out.train.meta.vocab_size == tokenizer::vocabulary_size(tokenizer.codec()),
        out.valid.meta.vocab_size == tokenizer::vocabulary_size(tokenizer.codec()),
        out.train.meta.eos == tokenizer.end(),
        out.valid.meta.eos == tokenizer.end(),
{
    let r: Result<Output, Error> = Ok(out);
    let items = choose|items: Seq<Item>| #[trigger]
        items_of(tokenizer, docs@, items) && if countable(items) {
            ran(items, tokenizer::vocabulary_size(tokenizer.codec()), tokenizer.end(), r)
        } else {
            r == Err::<Output, Error>(Error::Uncountable)
        };
    no_fault_is_ok(items, 0);
    splits_partition(items);
    items
}

/// What went wrong is told with its numbers: sources are counted from one.
pub proof fn mixing_errors_are_told(
    source: usize,
    given: u64,
    requested: u64,
    why: corpus::Error,
    r: String,
    told: String,
    inner: String,
)
    requires
        call_ensures(
            Error::message,
            (&Error::Exhausted { source, train_tokens: given, requested_tokens: requested },),
            r,
        ),
        call_ensures(Error::message, (&Error::Corpus(why),), told),
        call_ensures(corpus::Error::message, (&why,), inner),
    ensures
        r@ == "mixture source #"@ + text::decimal((source + 1) as nat) + " ended after "@
            + text::decimal(given as nat)
            + " training tokens, before the mixture could reach its "@ + text::decimal(
            requested as nat,
        ) + "-token budget"@,
        told@ == inner@,
{
}

/// A mixture of corpora encodes the documents of each source, weighs the sources as
/// they were weighed, and makes of them what a mixture of encoded documents makes.
pub proof fn corpora_are_encoded_and_mixed(
    sources: Vec<MixSource<'_>>,
    tokenizer: Tokenizer,
    budget: u64,
    out: Output,
) -> (r: (Seq<EncodedSource>, nat))
    requires
        call_ensures(mix, (&sources, &tokenizer, budget), Ok(out)),
    ensures
        sources@.len() >= 2,
        budget > 0,
        r.0.len() == sources@.len(),
        forall|i: int|
            0 <= i < sources@.len() ==> (#[trigger] r.0[i]).weight == sources@[i].weight
                && sources@[i].weight > 0 && items_of(tokenizer, sources@[i].docs@, r.0[i].items@),
        out.train.tokens@ == drawn(r.0, r.1, false),
        out.valid.tokens@ == drawn(r.0, r.1, true),
        total_at(r.0, r.1) >= budget,
        forall|m: nat| m < r.1 ==> #[trigger] goes_on(r.0, budget, m),
        out.train.meta.vocab_size == tokenizer::vocabulary_size(tokenizer.codec()),
        out.valid.meta.vocab_size == tokenizer::vocabulary_size(tokenizer.codec()),
        out.train.meta.eos == tokenizer.end(),
        out.valid.meta.eos == tokenizer.end(),
{
    let result: Result<Output, Error> = Ok(out);
    let weights = mix_weights(sources@);
    assert(mix_mistake(weights, budget as nat) is None);
    let size = tokenizer::vocabulary_size(tokenizer.codec());
    let encoded = choose|encoded: Seq<EncodedSource>| #[trigger]
        sources_of(tokenizer, sources@, encoded) && if all_countable(encoded) {
            exists|n: nat| #[trigger]
                ends_at(encoded, budget, n) && mixed(
                    encoded,
                    size,
                    tokenizer.end(),
                    budget,
                    n,
                    result,
                )
        } else {
            result == Err::<Output, Error>(Error::Uncountable)
        };
    let n = choose|n: nat| #[trigger]
        ends_at(encoded, budget, n) && mixed(encoded, size, tokenizer.end(), budget, n, result);
    assert forall|i: int| 0 <= i < sources@.len() implies (#[trigger] encoded[i]).weight
        == sources@[i].weight && sources@[i].weight > 0 && items_of(
        tokenizer,
        sources@[i].docs@,
        encoded[i].items@,
    ) by {
        assert(weights[i] == sources@[i].weight);
    }
    (encoded, n)
}

} // verus!
