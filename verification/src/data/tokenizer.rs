//! The byte-level BPE tokenizer, trained on the corpus it will encode.
//!
//! Digits are split individually and the vocabulary is capped at 65 536 so a
//! token fits the `u16` shard format.

use serde_json::Value;
use tokenizers::models::bpe::{BpeTrainerBuilder, BPE};
use tokenizers::models::TrainerWrapper;
use tokenizers::pre_tokenizers::byte_level::ByteLevel;
use tokenizers::pre_tokenizers::digits::Digits;
use tokenizers::pre_tokenizers::sequence::Sequence;
use tokenizers::AddedToken;
use tokenizers::Tokenizer as Codec;
use vstd::prelude::*;

use crate::data::corpus;
use crate::data::description;
use crate::json;
use crate::math;
use crate::text;

verus! {

/// The document separator, and the only special token.
pub const EOS: &'static str = "<|endoftext|>";

/// Largest vocabulary a `u16` shard can address.
pub const MAX_VOCAB: usize = 65536;

/// How many tokens a trained vocabulary holds before any merge: one for each
/// byte, and the separator.
pub const BASE_VOCAB: usize = 257;

/// Digits are tokens of their own: `2019` becoming four of them costs a little
/// compression and buys arithmetic that generalises.
pub const INDIVIDUAL_DIGITS: bool = true;

/// No space is put in front of a piece: with it, every digit would come back
/// with one and cost two tokens.
pub const PREFIX_SPACE: bool = false;

/// A tokenizer of the `tokenizers` crate, carried through unread.
#[verifier::external_type_specification]
#[verifier::external_body]
pub struct ExTokenizer(Codec);

/// The tokens of a tokenizer, added ones among them, with their ids.
pub uninterp spec fn vocabulary(t: Codec) -> Map<Seq<char>, u32>;

/// The size that a tokenizer reports of its vocabulary, added tokens counted.
pub uninterp spec fn vocabulary_size(t: Codec) -> usize;

/// Whether a tokenizer encodes one text always the same way.
pub uninterp spec fn repeats(t: Codec) -> bool;

/// Whether a tokenizer can be relied on: with the memory that it takes, it encodes,
/// decodes and is written down without falling over, and no id stands for two
/// tokens of its model.
pub uninterp spec fn reliable(t: Codec) -> bool;

/// Whether a tokenizer was trained on these documents, for a vocabulary of that
/// size.
pub uninterp spec fn learned(t: Codec, docs: Seq<Seq<char>>, vocab_size: usize) -> bool;

/// The ids that a tokenizer encodes a text into, or why it does not.
pub uninterp spec fn token_ids(t: Codec, text: Seq<char>) -> Result<
    Seq<u32>,
    Seq<char>,
>;

/// Whether a tokenizer may encode a text into these ids, or fail on it for that
/// reason.
pub uninterp spec fn may_encode(
    t: Codec,
    text: Seq<char>,
    out: Result<Seq<u32>, Seq<char>>,
) -> bool;

/// What an encoding gave, in the terms of the names here.
pub open spec fn told(r: Result<Vec<u32>, String>) -> Result<Seq<u32>, Seq<char>> {
    match r {
        Ok(ids) => Ok(ids@),
        Err(e) => Err(e@),
    }
}

/// A digit is one token, and what stands before and behind it is encoded on its
/// own.
pub open spec fn isolates_digits(t: Codec) -> bool {
    forall|a: Seq<char>, d: char, b: Seq<char>|
        '0' <= d <= '9' ==> (#[trigger] token_ids(t, a.push(d) + b))->Ok_0 == token_ids(
            t,
            a,
        )->Ok_0 + token_ids(t, seq![d])->Ok_0 + token_ids(t, b)->Ok_0 && token_ids(
            t,
            seq![d],
        )->Ok_0.len() == 1
}

/// The text that a tokenizer decodes ids into, or why it does not.
pub uninterp spec fn token_text(t: Codec, ids: Seq<u32>) -> Result<
    Seq<char>,
    Seq<char>,
>;

/// The tokenizer that a value describes, or why it describes none.
pub uninterp spec fn described(value: Value) -> Result<Codec, Seq<char>>;

/// The document that describes a tokenizer, or why there is none.
pub uninterp spec fn tokenizer_document(t: Codec) -> Result<
    Seq<char>,
    Seq<char>,
>;

/// Whether two tokenizers have the same tokens and do the same.
pub open spec fn alike(t: Codec, u: Codec) -> bool {
    &&& vocabulary(t) == vocabulary(u)
    &&& vocabulary_size(t) == vocabulary_size(u)
    &&& repeats(t) == repeats(u)
    &&& forall|text: Seq<char>| #[trigger] token_ids(u, text) == token_ids(t, text)
    &&& forall|ids: Seq<u32>| #[trigger] token_text(u, ids) == token_text(t, ids)
}

/// Whether a tokenizer was trained here.
pub open spec fn trained(t: Codec) -> bool {
    exists|docs: Seq<Seq<char>>, vocab_size: usize| #[trigger] learned(t, docs, vocab_size)
}

/// Whether a document describes a tokenizer that is like `t` and can be relied on.
pub open spec fn restores(document: Seq<u8>, t: Codec) -> bool {
    match json::bytes_value(document) {
        Ok(value) => description::suits(value) && match described(value) {
            Ok(u) => alike(t, u),
            Err(_) => false,
        },
        Err(_) => false,
    }
}

/// `tokenizers::Tokenizer::get_vocab_size`, added tokens counted.
#[verifier::external_body]
fn size_of(t: &Codec) -> (r: usize)
    ensures
        r == vocabulary_size(*t),
{
    t.get_vocab_size(true)
}

/// `tokenizers::Tokenizer::token_to_id`: the id of a token of the vocabulary,
/// `None` for any other text.
#[verifier::external_body]
fn id_of(t: &Codec, token: &str) -> (r: Option<u32>)
    ensures
        r == vocabulary(*t).get(token@),
{
    t.token_to_id(token)
}

/// `tokenizers::Tokenizer::encode`, without special tokens: ids that the text may
/// encode into, and those that it always does where the tokenizer repeats itself.
/// Which of them one that draws at random comes to is left unsaid.
#[verifier::external_body]
fn encode_with(t: &Codec, text: &str) -> (r: Result<Vec<u32>, String>)
    requires
        reliable(*t),
    ensures
        may_encode(*t, text@, told(r)),
        repeats(*t) ==> told(r) == token_ids(*t, text@),
{
    let encoding = t.encode(text, false).map_err(|e| e.to_string())?;
    Ok(encoding.get_ids().to_vec())
}

/// `tokenizers::Tokenizer::decode`, special tokens kept: the text of the ids.
#[verifier::external_body]
fn decode_with(t: &Codec, ids: &Vec<u32>) -> (r: Result<String, String>)
    requires
        reliable(*t),
    ensures
        match (r, token_text(*t, ids@)) {
            (Ok(text), Ok(s)) => text@ == s,
            (Err(e), Err(s)) => e@ == s,
            _ => false,
        },
{
    t.decode(ids, false).map_err(|e| e.to_string())
}

/// `serde_json::from_value` into a `tokenizers::Tokenizer`: the tokenizer that a
/// value describes. On a description that suits, the model is a `BPE`, a
/// `WordLevel` or a `WordPiece` in which no two tokens share an id and every merge
/// gives a token, or a `Unigram`, whose ids are the places of its tokens, so that
/// it is built the same each time; nothing that is set around it falls over on a
/// text or on ids. Only `BPE::dropout` has a tokenizer draw at random.
#[verifier::external_body]
fn read_value(value: Value) -> (r: Result<Codec, String>)
    requires
        description::suits(value),
    ensures
        match (r, described(value)) {
            (Ok(t), Ok(s)) => t == s,
            (Err(e), Err(s)) => e@ == s,
            _ => false,
        },
        r matches Ok(t) ==> reliable(t),
        r matches Ok(t) ==> description::steady(value) ==> repeats(t),
{
    serde_json::from_value(value).map_err(|e| e.to_string())
}

/// `tokenizers::Tokenizer::to_string`, laid out for reading: the document that
/// describes a tokenizer. That of a trained one is always there, and names the
/// added separator, the pre-tokenizers, the decoder, and the vocabulary and the
/// merges of the model in order, from which reading it builds the same again. Of
/// one that was read, with tokens added to it, that much is not claimed.
#[verifier::external_body]
fn write_document(t: &Codec) -> (r: Result<String, String>)
    requires
        reliable(*t),
    ensures
        match (r, tokenizer_document(*t)) {
            (Ok(text), Ok(s)) => text@ == s,
            (Err(e), Err(s)) => e@ == s,
            _ => false,
        },
        trained(*t) ==> r is Ok,
        r matches Ok(text) ==> trained(*t) ==> restores(vstd::utf8::encode_utf8(text@), *t),
{
    t.to_string(true).map_err(|e| e.to_string())
}

/// `tokenizers::Tokenizer::train` with a `BpeTrainer` on a fresh `BPE` model
/// behind the pre-tokenizers `Digits` and `ByteLevel`, whose alphabet of 256
/// characters seeds the vocabulary after the separator. No step of it fails with
/// these settings. Training adds merges while the vocabulary is smaller than
/// `vocab_size`, drops no byte and sets no dropout, so that every text encodes,
/// into ids below the size of the vocabulary, and decodes to itself. A digit that
/// is split off is one token, and what stands before and behind it is encoded on
/// its own. Which merges the documents lead to is left unsaid: where two are as
/// frequent, the order in which hash maps are walked has a say in it.
#[verifier::external_body]
fn train_bpe(
    docs: Vec<String>,
    vocab_size: usize,
    separator: &str,
    individual_digits: bool,
    add_prefix_space: bool,
) -> (r: Result<Codec, String>)
    requires
        separator@ == EOS@,
        vocab_size <= MAX_VOCAB,
        !add_prefix_space,
    ensures
        r is Ok,
        r matches Ok(t) ==> {
            &&& learned(t, corpus::texts(docs@), vocab_size)
            &&& reliable(t)
            &&& repeats(t)
            &&& BASE_VOCAB <= vocabulary_size(t)
            &&& vocabulary_size(t) <= vocab_size || vocabulary_size(t) == BASE_VOCAB
            &&& vocabulary(t).contains_key(separator@)
            &&& vocabulary(t)[separator@] < vocabulary_size(t)
            &&& forall|text: Seq<char>| #[trigger]
                token_ids(t, text) matches Ok(ids) && token_text(t, ids) == Ok::<
                    Seq<char>,
                    Seq<char>,
                >(text) && forall|i: int|
                    0 <= i < ids.len() ==> #[trigger] ids[i] < vocabulary_size(t)
            &&& individual_digits ==> isolates_digits(t)
        },
{
    let mut inner = Codec::new(BPE::default());
    let bytes = ByteLevel::default().add_prefix_space(add_prefix_space);
    let split = Sequence::new(vec![Digits::new(individual_digits).into(), bytes.into()]);
    inner.with_pre_tokenizer(Some(split)).with_decoder(Some(bytes));
    let mut trainer: TrainerWrapper = BpeTrainerBuilder::new()
        .vocab_size(vocab_size)
        .show_progress(true)
        .special_tokens(vec![AddedToken::from(separator, true)])
        .initial_alphabet(ByteLevel::alphabet().into_iter().collect())
        .build()
        .into();
    inner.train(&mut trainer, docs.into_iter()).map_err(|e| e.to_string())?;
    Ok(inner)
}

/// Why there is no tokenizer, or no encoding.
#[derive(Debug)]
pub enum Error {
    /// What the `tokenizers` crate reports, which carries no useful variants.
    Tokenizers(String),
    /// A vocabulary this large cannot be stored in the shard format.
    TooLarge(usize),
    /// The vocabulary has no [`EOS`], so documents could not be joined.
    NoEos,
    /// The description asks for what a tokenizer here cannot be relied on with.
    Unsupported,
}

impl Error {
    /// The error in words.
    pub open spec fn words(self) -> Seq<char> {
        match self {
            Error::Tokenizers(message) => "tokenizers: "@ + message@,
            Error::TooLarge(size) => "vocabulary of "@ + text::decimal(size as nat)
                + " exceeds the u16 shard format"@,
            Error::NoEos => "the vocabulary has no "@ + EOS@,
            Error::Unsupported => "the tokenizer has settings that are not supported"@,
        }
    }

    /// The same error once more.
    pub fn copy(&self) -> (r: Self)
        ensures
            r == *self,
    {
        match self {
            Error::Tokenizers(message) => Error::Tokenizers(message.clone()),
            Error::TooLarge(size) => Error::TooLarge(*size),
            Error::NoEos => Error::NoEos,
            Error::Unsupported => Error::Unsupported,
        }
    }

    /// The error in words.
    pub fn message(&self) -> (r: String)
        ensures
            r@ == self.words(),
    {
        let mut out = String::new();
        match self {
            Error::Tokenizers(message) => {
                out.append("tokenizers: ");
                out.append(message.as_str());
            },
            Error::TooLarge(size) => {
                out.append("vocabulary of ");
                text::push_decimal(&mut out, *size as u64);
                out.append(" exceeds the u16 shard format");
            },
            Error::NoEos => {
                out.append("the vocabulary has no ");
                out.append(EOS);
            },
            Error::Unsupported => {
                out.append("the tokenizer has settings that are not supported");
            },
        }
        assert(out@ =~= self.words());
        out
    }
}

/// The id of the separator, where a vocabulary of `size` tokens that gives it
/// the id `eos` suits the shard format.
pub open spec fn admitted(size: usize, eos: Option<u32>) -> Result<u16, Error> {
    if size > MAX_VOCAB {
        Err(Error::TooLarge(size))
    } else {
        match eos {
            Some(id) => Ok((id % 65536) as u16),
            None => Err(Error::NoEos),
        }
    }
}

/// The id of the separator, if a vocabulary suits the shard format.
pub fn suits(size: usize, eos: Option<u32>) -> (r: Result<u16, Error>)
    ensures
        r == admitted(size, eos),
{
    if size > MAX_VOCAB {
        return Err(Error::TooLarge(size));
    }
    match eos {
        Some(id) => Ok((id % 65536) as u16),
        None => Err(Error::NoEos),
    }
}

/// The ids, each cut down to sixteen bits.
pub open spec fn shortened(ids: Seq<u32>) -> Seq<u16> {
    ids.map_values(|id: u32| (id % 65536) as u16)
}

/// The ids, each widened to 32 bits.
pub open spec fn widened(ids: Seq<u16>) -> Seq<u32> {
    ids.map_values(|id: u16| id as u32)
}

fn shorten(ids: &Vec<u32>) -> (out: Vec<u16>)
    ensures
        out@ == shortened(ids@),
{
    let mut out: Vec<u16> = Vec::new();
    for id in it: ids.iter()
        invariant
            it.seq() == ids@.map_values(|id: u32| &id),
            out@ == shortened(ids@.take(it.index() as int)),
    {
        out.push((*id % 65536) as u16);
        assert(ids@.take(it.index() + 1) =~= ids@.take(it.index() as int).push(*id));
        assert(shortened(ids@.take(it.index() + 1)) =~= out@);
    }
    assert(ids@.take(ids@.len() as int) =~= ids@);
    out
}

fn widen(ids: &[u16]) -> (out: Vec<u32>)
    ensures
        out@ == widened(ids@),
{
    let mut out: Vec<u32> = Vec::new();
    let mut i: usize = 0;
    while i < ids.len()
        invariant
            i <= ids.len(),
            out@ == widened(ids@.take(i as int)),
        decreases ids.len() - i,
    {
        out.push(ids[i] as u32);
        i = i + 1;
        assert(widened(ids@.take(i as int)) =~= out@);
    }
    assert(ids@.take(ids@.len() as int) =~= ids@);
    out
}

/// A trained tokenizer plus the id of [`EOS`].
pub struct Tokenizer {
    inner: Codec,
    eos: u16,
    repeatable: bool,
}

impl Tokenizer {
    /// The vocabulary suits the shard format, `eos` is the separator's id, the
    /// tokenizer can be relied on, and repeats itself where it is marked so.
    #[verifier::type_invariant]
    spec fn well_formed(self) -> bool {
        &&& reliable(self.inner)
        &&& self.repeatable ==> repeats(self.inner)
        &&& admitted(vocabulary_size(self.inner), vocabulary(self.inner).get(EOS@)) == Ok::<
            u16,
            Error,
        >(self.eos)
    }

    /// The tokenizer of the `tokenizers` crate.
    pub closed spec fn codec(self) -> Codec {
        self.inner
    }

    /// The id of [`EOS`].
    pub closed spec fn end(self) -> u16 {
        self.eos
    }

    /// Nothing in the description leaves the encoding to chance.
    pub closed spec fn settled(self) -> bool {
        self.repeatable
    }

    /// What a token string stands for.
    pub open spec fn id(self, token: Seq<char>) -> Option<u16> {
        match vocabulary(self.codec()).get(token) {
            Some(id) => if id < 65536 {
                Some(id as u16)
            } else {
                None
            },
            None => None,
        }
    }

    /// What a text encodes into, without the separator.
    pub open spec fn ids(self, text: Seq<char>) -> Result<Seq<u16>, Seq<char>> {
        match token_ids(self.codec(), text) {
            Ok(ids) => Ok(shortened(ids)),
            Err(e) => Err(e),
        }
    }

    /// What a text may encode into, without the separator.
    pub open spec fn may_give(self, text: Seq<char>, out: Result<Seq<u16>, Seq<char>>) -> bool {
        exists|ids: Result<Seq<u32>, Seq<char>>| #[trigger]
            may_encode(self.codec(), text, ids) && out == match ids {
                Ok(ids) => Ok(shortened(ids)),
                Err(e) => Err(e),
            }
    }

    /// What ids decode into.
    pub open spec fn text(self, ids: Seq<u16>) -> Result<Seq<char>, Seq<char>> {
        token_text(self.codec(), widened(ids))
    }

    /// Admit a tokenizer whose vocabulary suits the shard format.
    fn wrap(inner: Codec, repeatable: bool) -> (r: Result<Self, Error>)
        requires
            reliable(inner),
            repeatable ==> repeats(inner),
        ensures
            match admitted(vocabulary_size(inner), vocabulary(inner).get(EOS@)) {
                Ok(eos) => r matches Ok(t) && t.codec() == inner && t.end() == eos && t.settled()
                    == repeatable,
                Err(e) => r == Err::<Self, Error>(e),
            },
    {
        let size = size_of(&inner);
        let eos = id_of(&inner, EOS);
        match suits(size, eos) {
            Ok(eos) => Ok(Tokenizer { inner, eos, repeatable }),
            Err(e) => Err(e),
        }
    }

    /// Fit a new vocabulary of `vocab_size` tokens over `docs`.
    pub fn train(docs: Vec<String>, vocab_size: usize) -> (r: Result<Self, Error>)
        ensures
            vocab_size > MAX_VOCAB ==> r == Err::<Self, Error>(Error::TooLarge(vocab_size)),
            vocab_size <= MAX_VOCAB ==> (r matches Ok(t) && {
                &&& learned(t.codec(), corpus::texts(docs@), vocab_size)
                &&& t.id(EOS@) == Some(t.end())
                &&& t.settled()
                &&& t.lossless()
                &&& t.splits_digits()
                &&& BASE_VOCAB <= vocabulary_size(t.codec())
                &&& vocabulary_size(t.codec()) <= vocab_size || vocabulary_size(t.codec())
                    == BASE_VOCAB
            }),
    {
        if vocab_size > MAX_VOCAB {
            return Err(Error::TooLarge(vocab_size));
        }
        match train_bpe(docs, vocab_size, EOS, INDIVIDUAL_DIGITS, PREFIX_SPACE) {
            Ok(inner) => {
                let t = Self::wrap(inner, true);
                proof {
                    let t = t->Ok_0;
                    let inner = t.codec();
                    assert forall|text: Seq<char>|
                        (#[trigger] token_ids(inner, text)) matches Ok(ids) && widened(
                            shortened(ids),
                        ) == ids by {
                        let ids = token_ids(inner, text)->Ok_0;
                        assert(widened(shortened(ids)) =~= ids);
                    }
                    assert forall|a: Seq<char>, d: char, b: Seq<char>|
                        '0' <= d <= '9' implies t.digit_stands_alone(a, d, b) by {
                        let whole = token_ids(inner, a.push(d) + b)->Ok_0;
                        let lead = token_ids(inner, a)->Ok_0;
                        let digit = token_ids(inner, seq![d])->Ok_0;
                        let rest = token_ids(inner, b)->Ok_0;
                        assert(shortened(whole) =~= shortened(lead) + shortened(digit) + shortened(
                            rest,
                        ));
                    }
                }
                t
            },
            Err(e) => Err(Error::Tokenizers(e)),
        }
    }

    /// Every text encodes the same way each time and decodes to itself.
    pub open spec fn lossless(self) -> bool {
        &&& repeats(self.codec())
        &&& forall|text: Seq<char>|
            (#[trigger] self.ids(text)) matches Ok(ids) && self.text(ids) == Ok::<
                Seq<char>,
                Seq<char>,
            >(text)
    }

    /// A digit in a text is one token, and what stands before it and behind it
    /// encodes as it would alone.
    pub open spec fn digit_stands_alone(self, a: Seq<char>, d: char, b: Seq<char>) -> bool {
        match (self.ids(a.push(d) + b), self.ids(a), self.ids(seq![d]), self.ids(b)) {
            (Ok(whole), Ok(lead), Ok(digit), Ok(rest)) => digit.len() == 1 && whole == lead + digit
                + rest,
            _ => false,
        }
    }

    /// Digits never merge, whatever stands around them.
    pub open spec fn splits_digits(self) -> bool {
        forall|a: Seq<char>, d: char, b: Seq<char>|
            '0' <= d <= '9' ==> #[trigger] self.digit_stands_alone(a, d, b)
    }

    /// Read the tokenizer that a document describes.
    pub fn load(document: &Vec<u8>) -> (r: Result<Self, Error>)
        ensures
            match json::bytes_value(document@) {
                Ok(value) => if description::suits(value) {
                    match described(value) {
                        Ok(inner) => match admitted(
                            vocabulary_size(inner),
                            vocabulary(inner).get(EOS@),
                        ) {
                            Ok(eos) => {
                                &&& r matches Ok(t)
                                &&& t.codec() == inner
                                &&& t.end() == eos
                                &&& t.settled() == description::steady(value)
                                &&& description::steady(value) ==> repeats(inner)
                            },
                            Err(e) => r == Err::<Self, Error>(e),
                        },
                        Err(m) => r matches Err(Error::Tokenizers(e)) && e@ == m,
                    }
                } else {
                    r == Err::<Self, Error>(Error::Unsupported)
                },
                Err(m) => r matches Err(Error::Tokenizers(e)) && e@ == m,
            },
            forall|t: Codec| #[trigger]
                restores(document@, t) ==> match admitted(
                    vocabulary_size(t),
                    vocabulary(t).get(EOS@),
                ) {
                    Ok(eos) => r matches Ok(u) && alike(t, u.codec()) && u.end() == eos,
                    Err(e) => r == Err::<Self, Error>(e),
                },
    {
        let value = match json::parse_bytes(document) {
            Ok(value) => value,
            Err(e) => {
                return Err(Error::Tokenizers(e));
            },
        };
        if !description::is_suitable(&value) {
            return Err(Error::Unsupported);
        }
        let repeatable = description::is_steady(&value);
        match read_value(value) {
            Ok(inner) => Self::wrap(inner, repeatable),
            Err(e) => Err(Error::Tokenizers(e)),
        }
    }

    /// The document that describes this tokenizer. [`Tokenizer::load`] reads that
    /// of a trained one back into its like.
    pub fn save(&self) -> (r: Result<String, Error>)
        ensures
            match tokenizer_document(self.codec()) {
                Ok(document) => r matches Ok(text) && text@ == document,
                Err(m) => r matches Err(Error::Tokenizers(e)) && e@ == m,
            },
            trained(self.codec()) ==> (r matches Ok(text) && restores(
                vstd::utf8::encode_utf8(text@),
                self.codec(),
            )),
    {
        proof {
            use_type_invariant(self);
        }
        match write_document(&self.inner) {
            Ok(text) => Ok(text),
            Err(e) => Err(Error::Tokenizers(e)),
        }
    }

    /// How many tokens there are.
    pub fn vocab_size(&self) -> (r: usize)
        ensures
            r == vocabulary_size(self.codec()),
            r <= MAX_VOCAB,
    {
        proof {
            use_type_invariant(self);
        }
        size_of(&self.inner)
    }

    /// The id of [`EOS`].
    pub fn eos(&self) -> (r: u16)
        ensures
            r == self.end(),
            vocabulary(self.codec()).get(EOS@) matches Some(id) && r == id % 65536,
    {
        proof {
            use_type_invariant(self);
        }
        self.eos
    }

    /// Whether it is settled that one text always encodes the same way.
    pub fn repeatable(&self) -> (r: bool)
        ensures
            r == self.settled(),
            r ==> repeats(self.codec()),
    {
        proof {
            use_type_invariant(self);
        }
        self.repeatable
    }

    /// Resolve a grammar token without exposing the tokenizer implementation.
    pub fn token_id(&self, token: &str) -> (r: Option<u16>)
        ensures
            r == self.id(token@),
    {
        match id_of(&self.inner, token) {
            Some(id) => if id < 65536 {
                Some(id as u16)
            } else {
                None
            },
            None => None,
        }
    }

    /// Encode one document, terminated by [`EOS`].
    pub fn encode(&self, text: &str) -> (r: Result<Vec<u16>, Error>)
        ensures
            match r {
                Ok(ids) => ids@.len() > 0 && ids@.last() == self.end() && self.may_give(
                    text@,
                    Ok(ids@.drop_last()),
                ),
                Err(Error::Tokenizers(e)) => self.may_give(text@, Err(e@)),
                Err(_) => false,
            },
            repeats(self.codec()) ==> match self.ids(text@) {
                Ok(s) => r matches Ok(ids) && ids@ == s.push(self.end()),
                Err(m) => r matches Err(Error::Tokenizers(e)) && e@ == m,
            },
    {
        match self.encode_raw(text) {
            Ok(mut ids) => {
                let ghost raw = ids@;
                ids.push(self.eos);
                assert(ids@.drop_last() =~= raw);
                Ok(ids)
            },
            Err(e) => Err(e),
        }
    }

    /// Encode without the terminator, for a prompt that is to be continued.
    pub fn encode_raw(&self, text: &str) -> (r: Result<Vec<u16>, Error>)
        ensures
            match r {
                Ok(ids) => self.may_give(text@, Ok(ids@)),
                Err(Error::Tokenizers(e)) => self.may_give(text@, Err(e@)),
                Err(_) => false,
            },
            repeats(self.codec()) ==> match self.ids(text@) {
                Ok(s) => r matches Ok(ids) && ids@ == s,
                Err(m) => r matches Err(Error::Tokenizers(e)) && e@ == m,
            },
    {
        proof {
            use_type_invariant(self);
        }
        let encoded = encode_with(&self.inner, text);
        assert(may_encode(self.codec(), text@, told(encoded)));
        match encoded {
            Ok(ids) => Ok(shorten(&ids)),
            Err(e) => Err(Error::Tokenizers(e)),
        }
    }

    /// The text that `ids` spell.
    pub fn decode(&self, ids: &[u16]) -> (r: Result<String, Error>)
        ensures
            match self.text(ids@) {
                Ok(s) => r matches Ok(text) && text@ == s,
                Err(m) => r matches Err(Error::Tokenizers(e)) && e@ == m,
            },
    {
        proof {
            use_type_invariant(self);
        }
        let ids = widen(ids);
        match decode_with(&self.inner, &ids) {
            Ok(text) => Ok(text),
            Err(e) => Err(Error::Tokenizers(e)),
        }
    }
}

/// Where digits never merge, a number has as many tokens as digits.
pub proof fn numbers_take_a_token_per_digit(t: Tokenizer, text: Seq<char>)
    requires
        t.splits_digits(),
        text::all_digits(text),
    ensures
        t.ids(text) matches Ok(ids) && ids.len() == text.len(),
    decreases text.len(),
{
    let none = Seq::<char>::empty();
    if text.len() == 0 {
        assert(t.digit_stands_alone(none, '0', none));
        assert(none.push('0') + none =~= seq!['0']);
        assert(text =~= none);
    } else {
        numbers_take_a_token_per_digit(t, none);
        numbers_take_a_token_per_digit(t, text.drop_last());
        assert(t.digit_stands_alone(text.drop_last(), text.last(), none));
        assert(text.drop_last().push(text.last()) + none =~= text);
    }
}

/// A document is encoded as a prompt is, with the end of the text behind it, and
/// fails where the prompt does.
pub proof fn documents_are_prompts_with_an_end(
    t: Tokenizer,
    text: &str,
    whole: Result<Vec<u16>, Error>,
    raw: Result<Vec<u16>, Error>,
)
    requires
        repeats(t.codec()),
        call_ensures(Tokenizer::encode, (&t, text), whole),
        call_ensures(Tokenizer::encode_raw, (&t, text), raw),
    ensures
        whole is Ok <==> raw is Ok,
        whole is Ok ==> {
            let (a, b) = (whole->Ok_0@, raw->Ok_0@);
            &&& a.len() == b.len() + 1
            &&& a[b.len() as int] == t.end()
            &&& forall|i: int| 0 <= i < b.len() ==> #[trigger] a[i] == b[i]
        },
{
}

/// The ids are those of the outer tokenizer, one for one, and what sixteen bits do
/// not hold of one is cut off.
pub proof fn ids_are_cut_down_to_sixteen_bits(
    t: Tokenizer,
    text: &str,
    raw: Vec<u16>,
    wide: Seq<u32>,
    i: int,
)
    requires
        repeats(t.codec()),
        call_ensures(Tokenizer::encode_raw, (&t, text), Ok(raw)),
        token_ids(t.codec(), text@) == Ok::<Seq<u32>, Seq<char>>(wide),
        0 <= i < wide.len(),
    ensures
        raw@.len() == wide.len(),
        wide[i] < 65536 ==> raw@[i] == wide[i],
        exists|k: int| #[trigger] math::goes_into(65536, wide[i] - raw@[i], k),
{
    assert(raw@ == shortened(wide));
    assert(math::goes_into(65536, wide[i] - raw@[i], (wide[i] / 65536) as int));
}

/// Ids are decoded as the numbers that they are, whatever holds them.
pub proof fn ids_are_decoded_as_they_are(
    t: Tokenizer,
    ids: &[u16],
    r: Result<String, Error>,
    wide: Seq<u32>,
)
    requires
        call_ensures(Tokenizer::decode, (&t, ids), r),
        wide.len() == ids@.len(),
        forall|i: int| 0 <= i < wide.len() ==> #[trigger] wide[i] == ids@[i],
    ensures
        match token_text(t.codec(), wide) {
            Ok(s) => r is Ok && r->Ok_0@ == s,
            Err(m) => r is Err && r->Err_0 is Tokenizers && r->Err_0->Tokenizers_0@ == m,
        },
{
    assert(widened(ids@) =~= wide);
}

/// A vocabulary suits the shards where sixteen bits number it and it has a
/// separator, whose id is kept.
pub proof fn vocabularies_suit_where_they_fit(size: usize, eos: Option<u32>, r: Result<u16, Error>)
    requires
        call_ensures(suits, (size, eos), r),
    ensures
        r is Ok <==> size <= 65536 && eos is Some,
        size > 65536 ==> r == Err::<u16, Error>(Error::TooLarge(size)),
        size <= 65536 && eos is None ==> r == Err::<u16, Error>(Error::NoEos),
        r is Ok && eos->0 < 65536 ==> r->Ok_0 == eos->0,
        r is Ok ==> exists|k: int| #[trigger] math::goes_into(65536, eos->0 - r->Ok_0, k),
{
    if r is Ok {
        assert(math::goes_into(65536, eos->0 - r->Ok_0, (eos->0 / 65536) as int));
    }
}

/// A token resolves to the id that the vocabulary gives it, where sixteen bits hold
/// it, and to nothing otherwise.
pub proof fn tokens_resolve_to_their_ids(t: Tokenizer, token: &str, r: Option<u16>)
    requires
        call_ensures(Tokenizer::token_id, (&t, token), r),
    ensures
        r is Some <==> vocabulary(t.codec()).contains_key(token@) && vocabulary(t.codec())[token@]
            < 65536,
        r is Some ==> vocabulary(t.codec())[token@] == r->0,
{
}

/// A vocabulary that is trained is no larger than was asked for, but holds every
/// byte and the separator; one that the shards cannot number is refused.
pub proof fn training_keeps_to_its_size(docs: Vec<String>, size: usize, r: Result<Tokenizer, Error>)
    requires
        call_ensures(Tokenizer::train, (docs, size), r),
    ensures
        r is Ok <==> size <= 65536,
        r is Err ==> r == Err::<Tokenizer, Error>(Error::TooLarge(size)),
        r matches Ok(t) ==> {
            &&& 257 <= vocabulary_size(t.codec())
            &&& 257 <= size ==> vocabulary_size(t.codec()) <= size
            &&& vocabulary(t.codec()).contains_key("<|endoftext|>"@)
            &&& vocabulary(t.codec())["<|endoftext|>"@] == t.end()
        },
{
}

/// What a trained tokenizer encodes it decodes to the text that it was, and a
/// number takes it a token for each digit. It was trained on the documents that it
/// was given, for a vocabulary of the size that was asked for.
pub proof fn trained_tokenizers_lose_nothing(
    docs: Vec<String>,
    size: usize,
    t: Tokenizer,
    text: &str,
    raw: Result<Vec<u16>, Error>,
    ids: &[u16],
    back: Result<String, Error>,
)
    requires
        call_ensures(Tokenizer::train, (docs, size), Ok(t)),
        call_ensures(Tokenizer::encode_raw, (&t, text), raw),
        raw is Ok ==> ids@ == raw->Ok_0@,
        call_ensures(Tokenizer::decode, (&t, ids), back),
    ensures
        learned(t.codec(), corpus::texts(docs@), size),
        raw is Ok,
        back is Ok,
        back->Ok_0@ == text@,
        text::all_digits(text@) ==> raw->Ok_0@.len() == text@.len(),
{
    assert(size <= MAX_VOCAB);
    assert(t.lossless());
    assert(t.splits_digits());
    if text::all_digits(text@) {
        numbers_take_a_token_per_digit(t, text@);
    }
}

/// The separator is the token of that name, and the size is that of the vocabulary.
pub proof fn tokenizers_know_their_separator(t: Tokenizer, eos: u16, id: Option<u16>, size: usize)
    requires
        call_ensures(Tokenizer::eos, (&t,), eos),
        call_ensures(Tokenizer::token_id, (&t, "<|endoftext|>"), id),
        call_ensures(Tokenizer::vocab_size, (&t,), size),
    ensures
        vocabulary(t.codec()).contains_key("<|endoftext|>"@),
        id is Some ==> id->0 == eos,
        eos == t.end(),
        size == vocabulary_size(t.codec()),
        size <= 65536,
{
}

/// What is wrong with a tokenizer is told in words, with the size where it is that.
pub proof fn tokenizer_errors_are_told(e: Error, r: String)
    requires
        call_ensures(Error::message, (&e,), r),
    ensures
        match e {
            Error::Tokenizers(message) => r@ == "tokenizers: "@ + message@,
            Error::TooLarge(size) => r@ == "vocabulary of "@ + text::decimal(size as nat)
                + " exceeds the u16 shard format"@,
            Error::NoEos => r@ == "the vocabulary has no "@ + "<|endoftext|>"@,
            Error::Unsupported => r@ == "the tokenizer has settings that are not supported"@,
        },
{
}

} // verus!
