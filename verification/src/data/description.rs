//! What the description of a tokenizer may ask for.
//!
//! Not every description that can be read makes a tokenizer that can be relied
//! on: where two tokens share an id, which of them the id decodes to is a matter
//! of chance, and some settings make the reading, the encoding or the decoding
//! fall over. The rules here leave those out, and with them what is not told
//! apart from them: patterns that are regular expressions, rewriting by a
//! compiled table, and descriptions of parts that do not name their type.

use std::collections::HashSet;

use serde_json::Value;
use vstd::prelude::*;

use crate::json;
use crate::text;

verus! {

broadcast use vstd::std_specs::hash::group_hash_axioms;

/// How deep a description may nest: `serde_json` reads no deeper.
pub const DEPTH: usize = 128;

/// The longest that encodings may be filled up to.
pub const PADDING_LIMIT: u64 = 1048576;

/// The longest that a token of a model that weighs them may be, in characters:
/// such tokens are kept in a tree that is as deep as the longest is long.
pub const TOKEN_LIMIT: usize = 256;

/// A description sets nothing under a key.
pub open spec fn unset(value: Value, key: Seq<char>) -> bool {
    match json::field(value, key) {
        Some(held) => json::null(held),
        None => true,
    }
}

/// A description sets a flag under a key.
pub open spec fn flagged(value: Value, key: Seq<char>) -> bool {
    match json::field(value, key) {
        Some(held) => json::flag_of(held) == Some(true),
        None => false,
    }
}

/// The part that a value describes, by the name of its type.
pub open spec fn kind(value: Value) -> Option<Seq<char>> {
    match json::field(value, "type"@) {
        Some(name) => json::text_of(name),
        None => None,
    }
}

/// The list that a description sets under a key.
pub open spec fn listed(value: Value, key: Seq<char>) -> Option<Seq<Value>> {
    match json::field(value, key) {
        Some(list) => json::items(list),
        None => None,
    }
}

/// A description sets nothing under a key, or a number other than 0.
pub open spec fn no_zero(value: Value, key: Seq<char>) -> bool {
    match json::field(value, key) {
        Some(held) => json::number_of(held) matches Some(n) && n > 0,
        None => true,
    }
}

/// A description sets a truth value under a key.
pub open spec fn set_either_way(value: Value, key: Seq<char>) -> bool {
    match json::field(value, key) {
        Some(held) => json::flag_of(held) is Some,
        None => false,
    }
}

/// The text that a description sets under a key.
pub open spec fn worded(value: Value, key: Seq<char>) -> Option<Seq<char>> {
    match json::field(value, key) {
        Some(held) => json::text_of(held),
        None => None,
    }
}

/// A description sets a text under a key that is not empty.
pub open spec fn filled(value: Value, key: Seq<char>) -> bool {
    worded(value, key) matches Some(words) && words.len() > 0
}

/// What is looked for in a text is itself a text, and not an empty one.
pub open spec fn looks_for_text(value: Value) -> bool {
    json::field(value, "pattern"@) matches Some(pattern) && filled(pattern, "String"@)
}

/// The names of what rewrites a text without being told how.
pub open spec fn rewriter(name: Seq<char>) -> bool {
    ||| name == "Bert"@
    ||| name == "ByteLevel"@
    ||| name == "Lowercase"@
    ||| name == "NFC"@
    ||| name == "NFD"@
    ||| name == "NFKC"@
    ||| name == "NFKD"@
    ||| name == "Nmt"@
    ||| name == "Strip"@
    ||| name == "StripAccents"@
}

/// The rewriting of a text that goes by its longer name, spelled out in full.
pub open spec fn cleans(value: Value) -> bool {
    &&& set_either_way(value, "clean_text"@)
    &&& set_either_way(value, "handle_chinese_chars"@)
    &&& set_either_way(value, "lowercase"@)
    &&& unset(value, "strip_accents"@) || set_either_way(value, "strip_accents"@)
}

/// A text is rewritten by what its characters are, by a text that is put in front
/// of it or that is looked for in it, or in such ways one after the other.
pub open spec fn rewrites(value: Value, depth: nat) -> bool
    decreases depth,
{
    match kind(value) {
        Some(name) => {
            ||| rewriter(name)
            ||| name == "BertNormalizer"@ && cleans(value)
            ||| name == "Prepend"@ && filled(value, "prepend"@)
            ||| name == "Replace"@ && looks_for_text(value)
            ||| name == "Sequence"@ && depth > 0 && match listed(value, "normalizers"@) {
                Some(parts) => forall|i: int|
                    0 <= i < parts.len() ==> rewrites(#[trigger] parts[i], (depth - 1) as nat),
                None => false,
            }
        },
        None => false,
    }
}

/// The names of what cuts a text without being told how.
pub open spec fn cutter(name: Seq<char>) -> bool {
    ||| name == "BertPreTokenizer"@
    ||| name == "ByteLevel"@
    ||| name == "Digits"@
    ||| name == "Metaspace"@
    ||| name == "Punctuation"@
    ||| name == "UnicodeScripts"@
    ||| name == "Whitespace"@
    ||| name == "WhitespaceSplit"@
}

/// A text is cut by what its characters are, at a character or a text that is
/// looked for, by a length that is not 0, or by such cuts one after the other.
pub open spec fn cuts(value: Value, depth: nat) -> bool
    decreases depth,
{
    match kind(value) {
        Some(name) => {
            ||| cutter(name)
            ||| name == "CharDelimiterSplit"@ && (worded(value, "delimiter"@) matches Some(mark)
                && mark.len() == 1)
            ||| name == "FixedLength"@ && no_zero(value, "length"@)
            ||| name == "Split"@ && looks_for_text(value)
            ||| name == "Sequence"@ && depth > 0 && match listed(value, "pretokenizers"@) {
                Some(parts) => forall|i: int|
                    0 <= i < parts.len() ==> cuts(#[trigger] parts[i], (depth - 1) as nat),
                None => false,
            }
        },
        None => false,
    }
}

/// The names of what turns any tokens back into text.
pub open spec fn joiner(name: Seq<char>) -> bool {
    ||| name == "ByteFallback"@
    ||| name == "ByteLevel"@
    ||| name == "CTC"@
    ||| name == "Fuse"@
    ||| name == "Metaspace"@
    ||| name == "WordPiece"@
}

/// A description sets the number 0 under a key.
pub open spec fn zero(value: Value, key: Seq<char>) -> bool {
    json::field(value, key) matches Some(held) && json::number_of(held) == Some(0u64)
}

/// Any tokens are turned back into text, in one way or in several after each other.
/// Nothing is taken from their ends, which may be shorter than that.
pub open spec fn decodes(value: Value, depth: nat) -> bool
    decreases depth,
{
    match kind(value) {
        Some(name) => {
            ||| joiner(name)
            ||| name == "Replace"@ && looks_for_text(value)
            ||| name == "Strip"@ && zero(value, "stop"@)
            ||| name == "Sequence"@ && depth > 0 && match listed(value, "decoders"@) {
                Some(parts) => forall|i: int|
                    0 <= i < parts.len() ==> decodes(#[trigger] parts[i], (depth - 1) as nat),
                None => false,
            }
        },
        None => false,
    }
}

/// Encodings are cut to a length of which the pieces overlap by less, or to none.
pub open spec fn truncates(value: Value) -> bool {
    match (json::field(value, "max_length"@), json::field(value, "stride"@)) {
        (Some(length), Some(stride)) => match (json::number_of(length), json::number_of(stride)) {
            (Some(n), Some(overlap)) => overlap < n || n == 0,
            _ => false,
        },
        _ => false,
    }
}

/// A description sets a number under a key, and not one above the limit.
pub open spec fn within(value: Value, key: Seq<char>, limit: u64) -> bool {
    match json::field(value, key) {
        Some(held) => json::number_of(held) matches Some(n) && n <= limit,
        None => false,
    }
}

/// Encodings are filled up to a length that is not beyond all bounds.
pub open spec fn pads(value: Value) -> bool {
    &&& worded(value, "strategy"@) == Some("BatchLongest"@) || (json::field(
        value,
        "strategy"@,
    ) matches Some(strategy) && within(strategy, "Fixed"@, PADDING_LIMIT))
    &&& unset(value, "pad_to_multiple_of"@) || within(value, "pad_to_multiple_of"@, PADDING_LIMIT)
}

/// A piece of a template stands for the one text there is, or for no text.
pub open spec fn one_text(piece: Value) -> bool {
    json::field(piece, "Sequence"@) matches Some(text) ==> worded(text, "id"@) == Some("A"@)
}

/// If encodings are laid out by a template, it asks for no second text.
pub open spec fn lays_out(value: Value) -> bool {
    match listed(value, "single"@) {
        Some(pieces) => forall|i: int| 0 <= i < pieces.len() ==> one_text(#[trigger] pieces[i]),
        None => true,
    }
}

/// Encodings are finished in one step, which is no template.
pub open spec fn one_step(value: Value) -> bool {
    kind(value) matches Some(name) && name != "Sequence"@ && json::field(value, "single"@) is None
}

/// Encodings are finished in one way or in several after each other. A template
/// may part an encoding into several, so that it comes last.
pub open spec fn finishes(value: Value, depth: nat) -> bool
    decreases depth,
{
    match kind(value) {
        Some(name) => lays_out(value) && (name == "Sequence"@ ==> depth > 0 && match listed(
            value,
            "processors"@,
        ) {
            Some(parts) => forall|i: int|
                0 <= i < parts.len() ==> (i < parts.len() - 1 ==> one_step(parts[i])) && finishes(
                    #[trigger] parts[i],
                    (depth - 1) as nat,
                ),
            None => true,
        }),
        None => false,
    }
}

/// Each token has an id of its own, which is no `u32::MAX`.
pub open spec fn ids_apart(vocabulary: Map<Seq<char>, Value>) -> bool {
    &&& forall|token: Seq<char>| #[trigger]
        vocabulary.contains_key(token) ==> (json::number_of(vocabulary[token]) matches Some(id)
            && id < u32::MAX)
    &&& forall|a: Seq<char>, b: Seq<char>|
        #![trigger vocabulary.contains_key(a), vocabulary.contains_key(b)]
        vocabulary.contains_key(a) && vocabulary.contains_key(b) && a != b ==> json::number_of(
            vocabulary[a],
        ) != json::number_of(vocabulary[b])
}

/// What two tokens merge into is a token: the first, and the second without the
/// prefix that marks it as a continuation.
pub open spec fn joins(
    vocabulary: Map<Seq<char>, Value>,
    prefix: Seq<char>,
    a: Seq<char>,
    b: Seq<char>,
) -> bool {
    vocabulary.contains_key(a) && vocabulary.contains_key(b) ==> prefix.len() <= b.len() && b.take(
        prefix.len() as int,
    ) == prefix && vocabulary.contains_key(a + b.skip(prefix.len() as int))
}

/// A merge, a pair of tokens or two tokens around a space, gives a token.
pub open spec fn merge_joins(
    vocabulary: Map<Seq<char>, Value>,
    prefix: Seq<char>,
    merge: Value,
) -> bool {
    match json::items(merge) {
        Some(pair) => pair.len() == 2 ==> match (json::text_of(pair[0]), json::text_of(pair[1])) {
            (Some(a), Some(b)) => joins(vocabulary, prefix, a, b),
            _ => true,
        },
        None => match json::text_of(merge) {
            Some(line) => forall|i: int|
                0 <= i < line.len() && #[trigger] line[i] == ' ' ==> joins(
                    vocabulary,
                    prefix,
                    line.take(i),
                    line.skip(i + 1),
                ),
            None => true,
        },
    }
}

/// The prefix of continuations, empty where none is set; `None` where it is no text.
pub open spec fn prefix_of(model: Value) -> Option<Seq<char>> {
    if unset(model, "continuing_subword_prefix"@) {
        Some(Seq::empty())
    } else {
        worded(model, "continuing_subword_prefix"@)
    }
}

/// Every merge of a model gives a token.
pub open spec fn merges_join(vocabulary: Map<Seq<char>, Value>, model: Value) -> bool {
    match prefix_of(model) {
        Some(prefix) => match listed(model, "merges"@) {
            Some(merges) => forall|i: int|
                0 <= i < merges.len() ==> merge_joins(vocabulary, prefix, #[trigger] merges[i]),
            None => true,
        },
        None => false,
    }
}

/// A token with its score, the token of no unreasonable length.
pub open spec fn scored(entry: Value) -> bool {
    match json::items(entry) {
        Some(pair) => pair.len() == 2 && match json::text_of(pair[0]) {
            Some(token) => token.len() <= TOKEN_LIMIT,
            None => false,
        },
        None => false,
    }
}

/// A model weighs tokens that are told apart by their places in a list.
pub open spec fn weighs(model: Value) -> bool {
    match listed(model, "vocab"@) {
        Some(entries) => forall|i: int| 0 <= i < entries.len() ==> scored(#[trigger] entries[i]),
        None => false,
    }
}

/// A model merges tokens into tokens or looks words or their pieces up, each token
/// with an id of its own, or weighs tokens.
pub open spec fn model_suits(model: Value) -> bool {
    match (kind(model), json::field(model, "vocab"@)) {
        (Some(name), Some(held)) => if name == "Unigram"@ {
            weighs(model)
        } else {
            match json::members(held) {
                Some(vocabulary) => {
                    &&& ids_apart(vocabulary)
                    &&& if name == "BPE"@ {
                        merges_join(vocabulary, model)
                    } else {
                        &&& json::field(model, "unk_token"@) is Some
                        &&& name == "WordLevel"@ || (name == "WordPiece"@ && json::field(
                            model,
                            "continuing_subword_prefix"@,
                        ) is Some && json::field(model, "max_input_chars_per_word"@) is Some)
                    }
                },
                None => false,
            }
        },
        _ => false,
    }
}

/// No description in a list sets a flag.
pub open spec fn none_flagged(values: Seq<Value>, key: Seq<char>) -> bool {
    forall|i: int| 0 <= i < values.len() ==> !flagged(#[trigger] values[i], key)
}

/// The added tokens take along the white space on one side at most, and where the
/// text is rewritten they are not.
pub open spec fn added_suit(value: Value) -> bool {
    match listed(value, "added_tokens"@) {
        Some(tokens) => {
            &&& none_flagged(tokens, "lstrip"@) || none_flagged(tokens, "rstrip"@)
            &&& unset(value, "normalizer"@) || none_flagged(tokens, "normalized"@)
        },
        None => true,
    }
}

/// A description of a tokenizer that can be relied on: a text is rewritten and cut
/// into pieces, the model turns these into ids, which are cut to length, laid out
/// and filled up, and any ids decode.
pub open spec fn suits(value: Value) -> bool {
    &&& unset(value, "truncation"@) || (json::field(value, "truncation"@) matches Some(part)
        && truncates(part))
    &&& unset(value, "padding"@) || (json::field(value, "padding"@) matches Some(part) && pads(
        part,
    ))
    &&& unset(value, "normalizer"@) || (json::field(value, "normalizer"@) matches Some(part)
        && rewrites(part, DEPTH as nat))
    &&& unset(value, "pre_tokenizer"@) || (json::field(value, "pre_tokenizer"@) matches Some(part)
        && cuts(part, DEPTH as nat))
    &&& unset(value, "post_processor"@) || (json::field(value, "post_processor"@) matches Some(part)
        && finishes(part, DEPTH as nat))
    &&& unset(value, "decoder"@) || (json::field(value, "decoder"@) matches Some(part) && decodes(
        part,
        DEPTH as nat,
    ))
    &&& added_suit(value)
    &&& json::field(value, "model"@) matches Some(model) && model_suits(model)
}

/// The model leaves nothing to chance: only one of type `BPE` can be told to, by
/// dropping merges.
pub open spec fn steady(value: Value) -> bool {
    match json::field(value, "model"@) {
        Some(model) => kind(model) == Some("BPE"@) ==> unset(model, "dropout"@),
        None => true,
    }
}

fn is_unset(value: &Value, key: &str) -> (r: bool)
    ensures
        r == unset(*value, key@),
{
    match json::get(value, key) {
        Some(held) => json::is_null(held),
        None => true,
    }
}

fn is_flagged(value: &Value, key: &str) -> (r: bool)
    ensures
        r == flagged(*value, key@),
{
    match json::get(value, key) {
        Some(held) => match json::flag(held) {
            Some(set) => set,
            None => false,
        },
        None => false,
    }
}

fn kind_of<'a>(value: &'a Value) -> (r: Option<&'a str>)
    ensures
        match r {
            Some(name) => kind(*value) == Some(name@),
            None => kind(*value) is None,
        },
{
    match json::get(value, "type") {
        Some(name) => json::text(name),
        None => None,
    }
}

fn has_no_zero(value: &Value, key: &str) -> (r: bool)
    ensures
        r == no_zero(*value, key@),
{
    match json::get(value, key) {
        Some(held) => match json::number(held) {
            Some(n) => n > 0,
            None => false,
        },
        None => true,
    }
}

fn is_set_either_way(value: &Value, key: &str) -> (r: bool)
    ensures
        r == set_either_way(*value, key@),
{
    match json::get(value, key) {
        Some(held) => json::flag(held).is_some(),
        None => false,
    }
}

fn list_of<'a>(value: &'a Value, key: &str) -> (r: Option<&'a Vec<Value>>)
    ensures
        match r {
            Some(parts) => listed(*value, key@) == Some(parts@),
            None => listed(*value, key@) is None,
        },
{
    match json::get(value, key) {
        Some(list) => json::list(list),
        None => None,
    }
}

fn words_of<'a>(value: &'a Value, key: &str) -> (r: Option<&'a str>)
    ensures
        match r {
            Some(words) => worded(*value, key@) == Some(words@),
            None => worded(*value, key@) is None,
        },
{
    match json::get(value, key) {
        Some(held) => json::text(held),
        None => None,
    }
}

fn is_worded(value: &Value, key: &str, words: &str) -> (r: bool)
    ensures
        r == (worded(*value, key@) == Some(words@)),
{
    match words_of(value, key) {
        Some(held) => text::same(held, words),
        None => false,
    }
}

fn is_filled(value: &Value, key: &str) -> (r: bool)
    ensures
        r == filled(*value, key@),
{
    match words_of(value, key) {
        Some(words) => text::chars_of(words).len() > 0,
        None => false,
    }
}

fn does_look_for_text(value: &Value) -> (r: bool)
    ensures
        r == looks_for_text(*value),
{
    match json::get(value, "pattern") {
        Some(pattern) => is_filled(pattern, "String"),
        None => false,
    }
}

fn is_rewriter(name: &str) -> (r: bool)
    ensures
        r == rewriter(name@),
{
    text::same(name, "Bert") || text::same(name, "ByteLevel") || text::same(name, "Lowercase")
        || text::same(name, "NFC") || text::same(name, "NFD") || text::same(name, "NFKC")
        || text::same(name, "NFKD") || text::same(name, "Nmt") || text::same(name, "Strip")
        || text::same(name, "StripAccents")
}

fn is_cleaned(value: &Value) -> (r: bool)
    ensures
        r == cleans(*value),
{
    is_set_either_way(value, "clean_text") && is_set_either_way(value, "handle_chinese_chars")
        && is_set_either_way(value, "lowercase") && (is_unset(value, "strip_accents")
        || is_set_either_way(value, "strip_accents"))
}

fn is_rewritten(value: &Value, depth: usize) -> (r: bool)
    ensures
        r == rewrites(*value, depth as nat),
    decreases depth,
{
    let name = match kind_of(value) {
        Some(name) => name,
        None => {
            return false;
        },
    };
    if is_rewriter(name) || (text::same(name, "BertNormalizer") && is_cleaned(value)) || (
    text::same(name, "Prepend") && is_filled(value, "prepend")) || (text::same(name, "Replace")
        && does_look_for_text(value)) {
        return true;
    }
    if !text::same(name, "Sequence") || depth == 0 {
        return false;
    }
    let parts = match list_of(value, "normalizers") {
        Some(parts) => parts,
        None => {
            return false;
        },
    };
    let ghost held = listed(*value, "normalizers"@)->0;
    let mut i: usize = 0;
    while i < parts.len()
        invariant
            depth > 0,
            i <= parts.len(),
            held == parts@,
            forall|k: int| 0 <= k < i ==> rewrites(#[trigger] held[k], (depth - 1) as nat),
        ensures
            i < parts.len() ==> !rewrites(held[i as int], (depth - 1) as nat),
            forall|k: int| 0 <= k < i ==> rewrites(#[trigger] held[k], (depth - 1) as nat),
        decreases parts.len() - i,
    {
        if !is_rewritten(&parts[i], depth - 1) {
            break;
        }
        i = i + 1;
    }
    i == parts.len()
}

fn is_cutter(name: &str) -> (r: bool)
    ensures
        r == cutter(name@),
{
    text::same(name, "BertPreTokenizer") || text::same(name, "ByteLevel") || text::same(
        name,
        "Digits",
    ) || text::same(name, "Metaspace") || text::same(name, "Punctuation") || text::same(
        name,
        "UnicodeScripts",
    ) || text::same(name, "Whitespace") || text::same(name, "WhitespaceSplit")
}

fn has_one_mark(value: &Value) -> (r: bool)
    ensures
        r == (worded(*value, "delimiter"@) matches Some(mark) && mark.len() == 1),
{
    match words_of(value, "delimiter") {
        Some(mark) => text::chars_of(mark).len() == 1,
        None => false,
    }
}

fn is_cut(value: &Value, depth: usize) -> (r: bool)
    ensures
        r == cuts(*value, depth as nat),
    decreases depth,
{
    let name = match kind_of(value) {
        Some(name) => name,
        None => {
            return false;
        },
    };
    if is_cutter(name) || (text::same(name, "CharDelimiterSplit") && has_one_mark(value)) || (
    text::same(name, "FixedLength") && has_no_zero(value, "length")) || (text::same(name, "Split")
        && does_look_for_text(value)) {
        return true;
    }
    if !text::same(name, "Sequence") || depth == 0 {
        return false;
    }
    let parts = match list_of(value, "pretokenizers") {
        Some(parts) => parts,
        None => {
            return false;
        },
    };
    let ghost held = listed(*value, "pretokenizers"@)->0;
    let mut i: usize = 0;
    while i < parts.len()
        invariant
            depth > 0,
            i <= parts.len(),
            held == parts@,
            forall|k: int| 0 <= k < i ==> cuts(#[trigger] held[k], (depth - 1) as nat),
        ensures
            i < parts.len() ==> !cuts(held[i as int], (depth - 1) as nat),
            forall|k: int| 0 <= k < i ==> cuts(#[trigger] held[k], (depth - 1) as nat),
        decreases parts.len() - i,
    {
        if !is_cut(&parts[i], depth - 1) {
            break;
        }
        i = i + 1;
    }
    i == parts.len()
}

fn is_joiner(name: &str) -> (r: bool)
    ensures
        r == joiner(name@),
{
    text::same(name, "ByteFallback") || text::same(name, "ByteLevel") || text::same(name, "CTC")
        || text::same(name, "Fuse") || text::same(name, "Metaspace") || text::same(
        name,
        "WordPiece",
    )
}

fn is_zero(value: &Value, key: &str) -> (r: bool)
    ensures
        r == zero(*value, key@),
{
    match json::get(value, key) {
        Some(held) => match json::number(held) {
            Some(n) => n == 0,
            None => false,
        },
        None => false,
    }
}

fn is_decoded(value: &Value, depth: usize) -> (r: bool)
    ensures
        r == decodes(*value, depth as nat),
    decreases depth,
{
    let name = match kind_of(value) {
        Some(name) => name,
        None => {
            return false;
        },
    };
    if is_joiner(name) || (text::same(name, "Replace") && does_look_for_text(value)) || (text::same(
        name,
        "Strip",
    ) && is_zero(value, "stop")) {
        return true;
    }
    if !text::same(name, "Sequence") || depth == 0 {
        return false;
    }
    let parts = match list_of(value, "decoders") {
        Some(parts) => parts,
        None => {
            return false;
        },
    };
    let ghost held = listed(*value, "decoders"@)->0;
    let mut i: usize = 0;
    while i < parts.len()
        invariant
            depth > 0,
            i <= parts.len(),
            held == parts@,
            forall|k: int| 0 <= k < i ==> decodes(#[trigger] held[k], (depth - 1) as nat),
        ensures
            i < parts.len() ==> !decodes(held[i as int], (depth - 1) as nat),
            forall|k: int| 0 <= k < i ==> decodes(#[trigger] held[k], (depth - 1) as nat),
        decreases parts.len() - i,
    {
        if !is_decoded(&parts[i], depth - 1) {
            break;
        }
        i = i + 1;
    }
    i == parts.len()
}

fn is_truncated(value: &Value) -> (r: bool)
    ensures
        r == truncates(*value),
{
    match (json::get(value, "max_length"), json::get(value, "stride")) {
        (Some(length), Some(stride)) => match (json::number(length), json::number(stride)) {
            (Some(n), Some(overlap)) => overlap < n || n == 0,
            _ => false,
        },
        _ => false,
    }
}

fn is_within(value: &Value, key: &str, limit: u64) -> (r: bool)
    ensures
        r == within(*value, key@, limit),
{
    match json::get(value, key) {
        Some(held) => match json::number(held) {
            Some(n) => n <= limit,
            None => false,
        },
        None => false,
    }
}

fn is_padded(value: &Value) -> (r: bool)
    ensures
        r == pads(*value),
{
    let fixed = match json::get(value, "strategy") {
        Some(strategy) => is_within(strategy, "Fixed", PADDING_LIMIT),
        None => false,
    };
    (is_worded(value, "strategy", "BatchLongest") || fixed) && (is_unset(
        value,
        "pad_to_multiple_of",
    ) || is_within(value, "pad_to_multiple_of", PADDING_LIMIT))
}

fn is_one_text(piece: &Value) -> (r: bool)
    ensures
        r == one_text(*piece),
{
    match json::get(piece, "Sequence") {
        Some(part) => is_worded(part, "id", "A"),
        None => true,
    }
}

fn is_laid_out(value: &Value) -> (r: bool)
    ensures
        r == lays_out(*value),
{
    let pieces = match list_of(value, "single") {
        Some(pieces) => pieces,
        None => {
            return true;
        },
    };
    let ghost held = listed(*value, "single"@)->0;
    let mut i: usize = 0;
    while i < pieces.len()
        invariant
            i <= pieces.len(),
            held == pieces@,
            forall|k: int| 0 <= k < i ==> one_text(#[trigger] held[k]),
        ensures
            i < pieces.len() ==> !one_text(held[i as int]),
            forall|k: int| 0 <= k < i ==> one_text(#[trigger] held[k]),
        decreases pieces.len() - i,
    {
        if !is_one_text(&pieces[i]) {
            break;
        }
        i = i + 1;
    }
    i == pieces.len()
}

fn is_one_step(value: &Value) -> (r: bool)
    ensures
        r == one_step(*value),
{
    match kind_of(value) {
        Some(name) => !text::same(name, "Sequence") && json::get(value, "single").is_none(),
        None => false,
    }
}

fn is_finished(value: &Value, depth: usize) -> (r: bool)
    ensures
        r == finishes(*value, depth as nat),
    decreases depth,
{
    let name = match kind_of(value) {
        Some(name) => name,
        None => {
            return false;
        },
    };
    if !is_laid_out(value) {
        return false;
    }
    if !text::same(name, "Sequence") {
        return true;
    }
    if depth == 0 {
        return false;
    }
    let parts = match list_of(value, "processors") {
        Some(parts) => parts,
        None => {
            return true;
        },
    };
    let ghost held = listed(*value, "processors"@)->0;
    let mut i: usize = 0;
    while i < parts.len()
        invariant
            depth > 0,
            i <= parts.len(),
            held == parts@,
            forall|k: int|
                0 <= k < i ==> (k < held.len() - 1 ==> one_step(held[k])) && finishes(
                    #[trigger] held[k],
                    (depth - 1) as nat,
                ),
        ensures
            i < parts.len() ==> !((i < held.len() - 1 ==> one_step(held[i as int])) && finishes(
                held[i as int],
                (depth - 1) as nat,
            )),
            forall|k: int|
                0 <= k < i ==> (k < held.len() - 1 ==> one_step(held[k])) && finishes(
                    #[trigger] held[k],
                    (depth - 1) as nat,
                ),
        decreases parts.len() - i,
    {
        if (i < parts.len() - 1 && !is_one_step(&parts[i])) || !is_finished(&parts[i], depth - 1) {
            break;
        }
        i = i + 1;
    }
    i == parts.len()
}

fn are_apart(held: &Value) -> (r: Option<bool>)
    ensures
        match (r, json::members(*held)) {
            (Some(apart), Some(vocabulary)) => apart == ids_apart(vocabulary),
            (None, None) => true,
            _ => false,
        },
{
    let tokens = match json::keys(held) {
        Some(tokens) => tokens,
        None => {
            return None;
        },
    };
    let ghost vocabulary = json::members(*held)->0;
    let mut seen: HashSet<u64> = HashSet::new();
    let mut i: usize = 0;
    while i < tokens.len()
        invariant
            i <= tokens.len(),
            json::members(*held) == Some(vocabulary),
            forall|k: int|
                0 <= k < tokens@.len() ==> vocabulary.contains_key((#[trigger] tokens@[k])@),
            forall|j: int, k: int|
                0 <= j < k < tokens@.len() ==> (#[trigger] tokens@[j])@ != (#[trigger] tokens@[k])@,
            forall|k: int|
                0 <= k < i ==> (json::number_of(vocabulary[(#[trigger] tokens@[k])@]) matches Some(
                    id,
                ) && id < u32::MAX && seen@.contains(id)),
            forall|id: u64| #[trigger]
                seen@.contains(id) ==> exists|k: int|
                    0 <= k < i && json::number_of(vocabulary[(#[trigger] tokens@[k])@]) == Some(id),
            forall|j: int, k: int|
                0 <= j < k < i ==> json::number_of(vocabulary[(#[trigger] tokens@[j])@])
                    != json::number_of(vocabulary[(#[trigger] tokens@[k])@]),
        decreases tokens.len() - i,
    {
        assert(vocabulary.contains_key(tokens@[i as int]@));
        let id = match json::get(held, tokens[i].as_str()) {
            Some(value) => json::number(value),
            None => None,
        };
        match id {
            Some(id) if id < u32::MAX as u64 => {
                if seen.contains(&id) {
                    proof {
                        let k = choose|k: int|
                            0 <= k < i && json::number_of(vocabulary[(#[trigger] tokens@[k])@])
                                == Some(id);
                        assert(vocabulary.contains_key(tokens@[k]@));
                    }
                    return Some(false);
                }
                let ghost before = seen@;
                seen.insert(id);
                proof {
                    assert forall|k: int| 0 <= k < i implies json::number_of(
                        vocabulary[(#[trigger] tokens@[k])@],
                    ) != Some(id) by {
                        assert(before.contains(json::number_of(vocabulary[tokens@[k]@])->0));
                    }
                    assert forall|n: u64| #[trigger] seen@.contains(n) implies exists|k: int|
                        0 <= k < i + 1 && json::number_of(vocabulary[(#[trigger] tokens@[k])@])
                            == Some(n) by {
                        if n == id {
                            assert(json::number_of(vocabulary[tokens@[i as int]@]) == Some(n));
                        } else {
                            assert(before.contains(n));
                        }
                    }
                }
            },
            _ => {
                return Some(false);
            },
        }
        i = i + 1;
    }
    proof {
        assert forall|token: Seq<char>| #[trigger]
            vocabulary.contains_key(token) implies (json::number_of(
            vocabulary[token],
        ) matches Some(id) && id < u32::MAX) by {
            let k = choose|k: int| 0 <= k < tokens@.len() && (#[trigger] tokens@[k])@ == token;
            assert(tokens@[k]@ == token);
        }
        assert forall|a: Seq<char>, b: Seq<char>|
            #![trigger vocabulary.contains_key(a), vocabulary.contains_key(b)]
            vocabulary.contains_key(a) && vocabulary.contains_key(b) && a
                != b implies json::number_of(vocabulary[a]) != json::number_of(vocabulary[b]) by {
            let j = choose|j: int| 0 <= j < tokens@.len() && (#[trigger] tokens@[j])@ == a;
            let k = choose|k: int| 0 <= k < tokens@.len() && (#[trigger] tokens@[k])@ == b;
            assert(tokens@[j]@ == a && tokens@[k]@ == b);
        }
    }
    Some(true)
}

fn do_join(held: &Value, prefix: &str, a: &str, b: &str) -> (r: bool)
    requires
        json::members(*held) is Some,
    ensures
        r == joins(json::members(*held)->0, prefix@, a@, b@),
{
    if json::get(held, a).is_none() || json::get(held, b).is_none() {
        return true;
    }
    let lead = text::chars_of(prefix);
    let second = text::chars_of(b);
    if second.len() < lead.len() {
        return false;
    }
    let ghost n = lead@.len() as int;
    let mut i: usize = 0;
    while i < lead.len()
        invariant
            i <= lead.len() <= second.len(),
            lead@ == prefix@,
            second@ == b@,
            n == lead@.len(),
            second@.take(i as int) == lead@.take(i as int),
            json::members(*held) is Some,
            json::members(*held)->0.contains_key(a@),
            json::members(*held)->0.contains_key(b@),
        decreases lead.len() - i,
    {
        if lead[i] != second[i] {
            assert(b@.take(n)[i as int] != prefix@[i as int]);
            return false;
        }
        i = i + 1;
        assert(second@.take(i as int) =~= second@.take(i - 1).push(second@[i - 1]));
        assert(lead@.take(i as int) =~= lead@.take(i - 1).push(lead@[i - 1]));
    }
    assert(lead@.take(n) =~= lead@);
    let mut rest: Vec<char> = Vec::new();
    while i < second.len()
        invariant
            0 <= n <= i <= second.len(),
            rest@ == second@.subrange(n, i as int),
        decreases second.len() - i,
    {
        rest.push(second[i]);
        i = i + 1;
        assert(rest@ =~= second@.subrange(n, i as int));
    }
    assert(rest@ =~= b@.skip(n));
    let mut both = a.to_owned();
    both.append(text::string_of(&rest).as_str());
    json::get(held, both.as_str()).is_some()
}

fn does_merge_join(held: &Value, prefix: &str, merge: &Value) -> (r: bool)
    requires
        json::members(*held) is Some,
    ensures
        r == merge_joins(json::members(*held)->0, prefix@, *merge),
{
    if let Some(pair) = json::list(merge) {
        if pair.len() != 2 {
            return true;
        }
        return match (json::text(&pair[0]), json::text(&pair[1])) {
            (Some(a), Some(b)) => do_join(held, prefix, a, b),
            _ => true,
        };
    }
    let line = match json::text(merge) {
        Some(line) => text::chars_of(line),
        None => {
            return true;
        },
    };
    let ghost vocabulary = json::members(*held)->0;
    let mut i: usize = 0;
    let mut lead: Vec<char> = Vec::new();
    while i < line.len()
        invariant
            i <= line.len(),
            lead@ == line@.take(i as int),
            json::members(*held) == Some(vocabulary),
            json::items(*merge) is None,
            json::text_of(*merge) == Some(line@),
            forall|k: int|
                0 <= k < i && #[trigger] line@[k] == ' ' ==> joins(
                    vocabulary,
                    prefix@,
                    line@.take(k),
                    line@.skip(k + 1),
                ),
        decreases line.len() - i,
    {
        if line[i] == ' ' {
            let mut rest: Vec<char> = Vec::new();
            let mut k: usize = i + 1;
            while k < line.len()
                invariant
                    i < k <= line.len(),
                    rest@ == line@.subrange(i + 1, k as int),
                decreases line.len() - k,
            {
                rest.push(line[k]);
                k = k + 1;
                assert(rest@ =~= line@.subrange(i + 1, k as int));
            }
            assert(rest@ =~= line@.skip(i + 1));
            if !do_join(
                held,
                prefix,
                text::string_of(&lead).as_str(),
                text::string_of(&rest).as_str(),
            ) {
                assert(json::text_of(*merge)->0[i as int] == line@[i as int]);
                return false;
            }
        }
        lead.push(line[i]);
        i = i + 1;
        assert(lead@ =~= line@.take(i as int));
    }
    true
}

fn do_merges_join(held: &Value, model: &Value) -> (r: bool)
    requires
        json::members(*held) is Some,
    ensures
        r == merges_join(json::members(*held)->0, *model),
{
    let prefix = if is_unset(model, "continuing_subword_prefix") {
        ""
    } else {
        match words_of(model, "continuing_subword_prefix") {
            Some(prefix) => prefix,
            None => {
                return false;
            },
        }
    };
    proof {
        reveal_strlit("");
        assert(""@ =~= Seq::<char>::empty());
        assert(prefix_of(*model) == Some(prefix@));
    }
    let merges = match list_of(model, "merges") {
        Some(merges) => merges,
        None => {
            return true;
        },
    };
    let ghost all = listed(*model, "merges"@)->0;
    let ghost vocabulary = json::members(*held)->0;
    let mut i: usize = 0;
    while i < merges.len()
        invariant
            i <= merges.len(),
            json::members(*held) == Some(vocabulary),
            all == merges@,
            forall|k: int| 0 <= k < i ==> merge_joins(vocabulary, prefix@, #[trigger] all[k]),
        ensures
            i < merges.len() ==> !merge_joins(vocabulary, prefix@, all[i as int]),
            forall|k: int| 0 <= k < i ==> merge_joins(vocabulary, prefix@, #[trigger] all[k]),
        decreases merges.len() - i,
    {
        if !does_merge_join(held, prefix, &merges[i]) {
            break;
        }
        i = i + 1;
    }
    i == merges.len()
}

fn is_scored(entry: &Value) -> (r: bool)
    ensures
        r == scored(*entry),
{
    match json::list(entry) {
        Some(pair) => if pair.len() == 2 {
            match json::text(&pair[0]) {
                Some(token) => text::chars_of(token).len() <= TOKEN_LIMIT,
                None => false,
            }
        } else {
            false
        },
        None => false,
    }
}

fn is_weighed(model: &Value) -> (r: bool)
    ensures
        r == weighs(*model),
{
    let entries = match list_of(model, "vocab") {
        Some(entries) => entries,
        None => {
            return false;
        },
    };
    let ghost held = listed(*model, "vocab"@)->0;
    let mut i: usize = 0;
    while i < entries.len()
        invariant
            i <= entries.len(),
            held == entries@,
            forall|k: int| 0 <= k < i ==> scored(#[trigger] held[k]),
        ensures
            i < entries.len() ==> !scored(held[i as int]),
            forall|k: int| 0 <= k < i ==> scored(#[trigger] held[k]),
        decreases entries.len() - i,
    {
        if !is_scored(&entries[i]) {
            break;
        }
        i = i + 1;
    }
    i == entries.len()
}

fn does_model_suit(model: &Value) -> (r: bool)
    ensures
        r == model_suits(*model),
{
    let name = match kind_of(model) {
        Some(name) => name,
        None => {
            return false;
        },
    };
    let held = match json::get(model, "vocab") {
        Some(held) => held,
        None => {
            return false;
        },
    };
    if text::same(name, "Unigram") {
        return is_weighed(model);
    }
    match are_apart(held) {
        Some(true) => if text::same(name, "BPE") {
            do_merges_join(held, model)
        } else {
            json::get(model, "unk_token").is_some() && (text::same(name, "WordLevel") || (
            text::same(name, "WordPiece") && json::get(model, "continuing_subword_prefix").is_some()
                && json::get(model, "max_input_chars_per_word").is_some()))
        },
        _ => false,
    }
}

fn is_none_flagged(values: &Vec<Value>, key: &str) -> (r: bool)
    ensures
        r == none_flagged(values@, key@),
{
    let mut i: usize = 0;
    while i < values.len()
        invariant
            i <= values.len(),
            forall|k: int| 0 <= k < i ==> !flagged(#[trigger] values@[k], key@),
        decreases values.len() - i,
    {
        if is_flagged(&values[i], key) {
            assert(flagged(values@[i as int], key@));
            return false;
        }
        i = i + 1;
    }
    true
}

fn do_added_suit(value: &Value) -> (r: bool)
    ensures
        r == added_suit(*value),
{
    match list_of(value, "added_tokens") {
        Some(tokens) => {
            let one_side = is_none_flagged(tokens, "lstrip") || is_none_flagged(tokens, "rstrip");
            one_side && (is_unset(value, "normalizer") || is_none_flagged(tokens, "normalized"))
        },
        None => true,
    }
}

/// Whether a description is one that can be relied on.
pub fn is_suitable(value: &Value) -> (r: bool)
    ensures
        r == suits(*value),
{
    let truncated = is_unset(value, "truncation") || match json::get(value, "truncation") {
        Some(part) => is_truncated(part),
        None => false,
    };
    let padded = is_unset(value, "padding") || match json::get(value, "padding") {
        Some(part) => is_padded(part),
        None => false,
    };
    let rewritten = is_unset(value, "normalizer") || match json::get(value, "normalizer") {
        Some(part) => is_rewritten(part, DEPTH),
        None => false,
    };
    let cut = is_unset(value, "pre_tokenizer") || match json::get(value, "pre_tokenizer") {
        Some(part) => is_cut(part, DEPTH),
        None => false,
    };
    let finished = is_unset(value, "post_processor") || match json::get(value, "post_processor") {
        Some(part) => is_finished(part, DEPTH),
        None => false,
    };
    let decoded = is_unset(value, "decoder") || match json::get(value, "decoder") {
        Some(part) => is_decoded(part, DEPTH),
        None => false,
    };
    let modelled = match json::get(value, "model") {
        Some(model) => does_model_suit(model),
        None => false,
    };
    truncated && padded && rewritten && cut && finished && decoded && do_added_suit(value)
        && modelled
}

/// Whether the model leaves nothing to chance.
pub fn is_steady(value: &Value) -> (r: bool)
    ensures
        r == steady(*value),
{
    match json::get(value, "model") {
        Some(model) => match kind_of(model) {
            Some(name) => !text::same(name, "BPE") || is_unset(model, "dropout"),
            None => true,
        },
        None => true,
    }
}

/// No two tokens of a suitable description share an id: whatever the model, one that
/// does not weigh its tokens tells each from every other by its number.
pub proof fn suitable_tokens_are_told_apart(
    value: Value,
    model: Value,
    held: Value,
    vocabulary: Map<Seq<char>, Value>,
    a: Seq<char>,
    b: Seq<char>,
)
    requires
        call_ensures(is_suitable, (&value,), true),
        json::field(value, "model"@) == Some(model),
        json::field(model, "vocab"@) == Some(held),
        kind(model) != Some("Unigram"@),
        json::members(held) == Some(vocabulary),
        vocabulary.contains_key(a),
        vocabulary.contains_key(b),
    ensures
        json::number_of(vocabulary[a]) matches Some(id) && id < u32::MAX,
        json::number_of(vocabulary[a]) == json::number_of(vocabulary[b]) ==> a == b,
{
}

/// A pair of tokens that a suitable description merges makes up a token, where
/// continuations carry no mark.
pub proof fn suitable_merges_give_tokens(
    value: Value,
    model: Value,
    held: Value,
    vocabulary: Map<Seq<char>, Value>,
    merges: Value,
    pairs: Seq<Value>,
    i: int,
    pair: Seq<Value>,
    a: Seq<char>,
    b: Seq<char>,
)
    requires
        call_ensures(is_suitable, (&value,), true),
        json::field(value, "model"@) == Some(model),
        kind(model) == Some("BPE"@),
        json::field(model, "vocab"@) == Some(held),
        json::members(held) == Some(vocabulary),
        json::field(model, "continuing_subword_prefix"@) is None,
        json::field(model, "merges"@) == Some(merges),
        json::items(merges) == Some(pairs),
        0 <= i < pairs.len(),
        json::items(pairs[i]) == Some(pair),
        pair.len() == 2,
        json::text_of(pair[0]) == Some(a),
        json::text_of(pair[1]) == Some(b),
        vocabulary.contains_key(a),
        vocabulary.contains_key(b),
    ensures
        vocabulary.contains_key(a + b),
{
    reveal_strlit("BPE");
    reveal_strlit("Unigram");
    assert("BPE"@.len() == 3 && "Unigram"@.len() == 7);
    assert(model_suits(model));
    assert(prefix_of(model) == Some(Seq::<char>::empty()));
    assert(listed(model, "merges"@) == Some(pairs));
    assert(merges_join(vocabulary, model));
    let prefix = prefix_of(model)->0;
    let all = listed(model, "merges"@)->0;
    assert(merge_joins(vocabulary, prefix, all[i]));
    assert(joins(vocabulary, prefix, a, b));
    assert(b.skip(0) =~= b);
}

/// A model that drops merges is left to chance, and no other is: a description is
/// steady unless its model is of type `BPE` and sets a `dropout` other than `null`.
pub proof fn only_dropped_merges_are_left_to_chance(value: Value, r: bool)
    requires
        call_ensures(is_steady, (&value,), r),
    ensures
        r == match json::field(value, "model"@) {
            Some(model) => match (
                json::field(model, "type"@),
                json::field(model, "dropout"@),
            ) {
                (Some(name), Some(dropout)) => json::null(dropout) || json::text_of(name) != Some(
                    "BPE"@,
                ),
                _ => true,
            },
            None => true,
        },
{
}

} // verus!
