use quasar::data::tokenizer::{suits, Error, Tokenizer, EOS, MAX_VOCAB};

fn strings(docs: &[&str]) -> Vec<String> {
    docs.iter().map(|doc| doc.to_string()).collect()
}

fn trained() -> Tokenizer {
    let docs = ["the quick brown fox", "the lazy dog", "quick quick brown"];
    Tokenizer::train(strings(&docs), 300).unwrap()
}

#[test]
fn text_survives_a_roundtrip() {
    let tokenizer = trained();

    let ids = tokenizer.encode("the quick fox").unwrap();

    assert_eq!(tokenizer.decode(&ids[..ids.len() - 1]).unwrap(), "the quick fox");
}

#[test]
fn unseen_bytes_still_encode() {
    let tokenizer = trained();

    let ids = tokenizer.encode("λ→∅").unwrap();

    assert_eq!(tokenizer.decode(&ids[..ids.len() - 1]).unwrap(), "λ→∅");
}

#[test]
fn every_text_survives_a_roundtrip() {
    let tokenizer = trained();
    for text in ["", " ", "  two  spaces ", "\r\n\t", "a<|endoftext|>b", "12 345", "\u{0}é\u{10ffff}"] {
        let ids = tokenizer.encode_raw(text).unwrap();
        assert!(ids.iter().all(|&id| (id as usize) < tokenizer.vocab_size()));
        assert_eq!(tokenizer.decode(&ids).unwrap(), text);
    }
}

#[test]
fn every_document_ends_with_eos() {
    let tokenizer = trained();

    let ids = tokenizer.encode("the dog").unwrap();

    assert_eq!(ids.last(), Some(&tokenizer.eos()));
    assert_eq!(ids[..ids.len() - 1], tokenizer.encode_raw("the dog").unwrap()[..]);
}

#[test]
fn digits_never_merge() {
    let tokenizer = trained();

    let ids = tokenizer.encode("2019").unwrap();

    assert_eq!(ids.len(), 5, "four digits plus eos");
    let numbers = Tokenizer::train(strings(&["2019 2019 2019 201920192019"]), 400).unwrap();
    assert_eq!(numbers.encode_raw("20192019").unwrap().len(), 8);
    assert_eq!(numbers.encode_raw("").unwrap().len(), 0);
    let (a, b) = ("the quick 2", "<|endoftext|> x");
    let mut parts = tokenizer.encode_raw(a).unwrap();
    parts.extend(tokenizer.encode_raw("0").unwrap());
    parts.extend(tokenizer.encode_raw(b).unwrap());
    assert_eq!(tokenizer.encode_raw(&format!("{a}0{b}")).unwrap(), parts);
}

#[test]
fn training_merges_up_to_the_requested_size() {
    let small = Tokenizer::train(strings(&["aa aa aa"]), 10).unwrap();
    assert_eq!(small.vocab_size(), 257, "the bytes and the separator are always there");
    let tokenizer = trained();
    assert!(tokenizer.vocab_size() > 257 && tokenizer.vocab_size() <= 300);
    assert_eq!(tokenizer.token_id(EOS), Some(tokenizer.eos()));
    assert_eq!(tokenizer.token_id("no such token"), None);
    assert!(tokenizer.repeatable());
    assert!(matches!(Tokenizer::train(strings(&["a"]), MAX_VOCAB + 1), Err(Error::TooLarge(n)) if n == MAX_VOCAB + 1));
}

#[test]
fn a_saved_tokenizer_is_read_back() {
    let tokenizer = trained();
    let document = tokenizer.save().unwrap();

    let loaded = Tokenizer::load(&document.into_bytes()).unwrap();

    assert_eq!(loaded.eos(), tokenizer.eos());
    assert_eq!(loaded.vocab_size(), tokenizer.vocab_size());
    assert!(loaded.repeatable());
    for text in ["quick dog", "", " the  lazy 2019 λ\n", "a<|endoftext|>b"] {
        let ids = tokenizer.encode(text).unwrap();
        assert_eq!(loaded.encode(text).unwrap(), ids);
        assert_eq!(loaded.decode(&ids).unwrap(), tokenizer.decode(&ids).unwrap());
    }
    assert_eq!(loaded.save().unwrap(), tokenizer.save().unwrap());
}

#[test]
fn a_document_has_to_describe_a_usable_tokenizer() {
    assert!(matches!(Tokenizer::load(&b"{".to_vec()), Err(Error::Tokenizers(_))));
    let document = r#"{"version":"1.0","truncation":null,"padding":null,"added_tokens":[],
        "normalizer":null,"pre_tokenizer":null,"post_processor":null,"decoder":null,
        "model":{"type":"WordLevel","vocab":{"a":0},"unk_token":"a"}}"#;
    assert!(matches!(Tokenizer::load(&document.as_bytes().to_vec()), Err(Error::NoEos)));
}

#[test]
fn a_vocabulary_has_to_suit_the_shards() {
    assert!(matches!(suits(65_536, Some(7)), Ok(7)));
    assert!(matches!(suits(65_537, Some(7)), Err(Error::TooLarge(65_537))));
    assert!(matches!(suits(10, None), Err(Error::NoEos)));
    assert!(matches!(suits(10, Some(65_537)), Ok(1)));
}

#[test]
fn errors_say_what_is_wrong() {
    assert_eq!(Error::Tokenizers("why".to_string()).message(), "tokenizers: why");
    assert_eq!(
        Error::TooLarge(70_000).message(),
        "vocabulary of 70000 exceeds the u16 shard format"
    );
    assert_eq!(Error::NoEos.message(), "the vocabulary has no <|endoftext|>");
    assert_eq!(
        Error::Unsupported.message(),
        "the tokenizer has settings that are not supported"
    );
}

#[test]
fn a_tokenizer_that_drops_merges_does_not_repeat_itself() {
    let document = |dropout: &str| {
        format!(
            r#"{{"version":"1.0","truncation":null,"padding":null,"added_tokens":[],
            "normalizer":null,"pre_tokenizer":null,"post_processor":null,"decoder":null,
            "model":{{"type":"BPE","dropout":{dropout},"unk_token":null,
                "continuing_subword_prefix":null,"end_of_word_suffix":null,"fuse_unk":false,
                "byte_fallback":false,"vocab":{{"a":0,"b":1,"ab":2,{EOS:?}:3}},
                "merges":["a b"]}}}}"#
        )
        .into_bytes()
    };
    assert!(Tokenizer::load(&document("null")).unwrap().repeatable());
    let dropping = Tokenizer::load(&document("0.5")).unwrap();
    assert!(!dropping.repeatable());
    assert_eq!(dropping.eos(), 3);
    assert_eq!(dropping.encode("ab").unwrap().last(), Some(&3));
    // Nothing is known of one that is told to drop nothing.
    let keeping = Tokenizer::load(&document("0.0")).unwrap();
    assert!(!keeping.repeatable());
    assert_eq!(keeping.encode("ab").unwrap(), [2, 3]);
    let all = Tokenizer::load(&document("1.0")).unwrap();
    assert_eq!(all.encode("ab").unwrap(), [0, 1, 3]);
    assert!(matches!(Tokenizer::load(&document("1.5")), Err(Error::Tokenizers(_))));
}

#[test]
fn only_merges_are_dropped() {
    let words = r#""type":"WordLevel","dropout":0.5,"unk_token":"b","was":"#;
    let words = described(r#""type":"BPE","dropout":null,"unk_token":"#, words).unwrap();
    assert!(words.repeatable());
    assert_eq!(words.encode("ab").unwrap(), [2, 3]);
    assert_eq!(words.encode("ba").unwrap(), [1, 3]);
}

/// The description of a tokenizer over `a`, `b`, `ab` and the separator.
fn plain() -> Vec<u8> {
    let document = format!(
        r#"{{"version":"1.0","truncation":null,"padding":null,"added_tokens":[
            {{"id":3,"content":{EOS:?},"single_word":false,"lstrip":false,"rstrip":false,
            "normalized":false,"special":true}}],
        "normalizer":null,"pre_tokenizer":null,"post_processor":null,"decoder":null,
        "model":{{"type":"BPE","dropout":null,"unk_token":null,
            "continuing_subword_prefix":null,"end_of_word_suffix":null,"fuse_unk":false,
            "byte_fallback":false,"vocab":{{"a":0,"b":1,"ab":2,{EOS:?}:3}},
            "merges":[["a","b"]]}}}}"#
    );
    document.into_bytes()
}

/// The tokenizer of that description, with `from` replaced in it.
fn described(from: &str, to: &str) -> Result<Tokenizer, Error> {
    let document = String::from_utf8(plain()).unwrap();
    assert!(document.contains(from), "{from}");
    Tokenizer::load(&document.replacen(from, to, 1).into_bytes())
}

#[test]
fn a_plain_description_is_read() {
    let tokenizer = described("1.0", "1.0").unwrap();
    assert_eq!((tokenizer.vocab_size(), tokenizer.eos()), (4, 3));
    assert_eq!(tokenizer.encode("abba").unwrap(), [2, 1, 0, 3]);
    assert_eq!(tokenizer.decode(&[2, 0]).unwrap(), "ab a");
    let old = described(r#"["a","b"]"#, r#""a b""#).unwrap();
    assert_eq!(old.encode_raw("ab").unwrap(), [2]);
    let nested = r#""pre_tokenizer":{"type":"Sequence","pretokenizers":[
        {"type":"WhitespaceSplit"},{"type":"Digits","individual_digits":true}]}"#;
    let cut = described(r#""pre_tokenizer":null"#, nested).unwrap();
    assert_eq!(cut.encode_raw("a b ab").unwrap(), [0, 1, 2]);
    let short = r#""truncation":{"direction":"Right","max_length":2,"strategy":"LongestFirst","stride":1}"#;
    let short = described(r#""truncation":null"#, short).unwrap();
    assert_eq!(short.encode_raw("bababab").unwrap(), [1, 2]);
    let pairs = r#""pre_tokenizer":{"type":"FixedLength","length":2}"#;
    let pairs = described(r#""pre_tokenizer":null"#, pairs).unwrap();
    assert_eq!(pairs.encode_raw("baba").unwrap(), [1, 0, 1, 0]);
    let fused = r#""decoder":{"type":"Sequence","decoders":[{"type":"ByteFallback"},{"type":"Fuse"}]}"#;
    let fused = described(r#""decoder":null"#, fused).unwrap();
    assert_eq!(fused.decode(&[2, 0]).unwrap(), "aba");
    assert_eq!(fused.decode(&[]).unwrap(), "");
    let trimmed = r#""post_processor":{"type":"ByteLevel","add_prefix_space":false,"trim_offsets":true}"#;
    let trimmed = described(r#""post_processor":null"#, trimmed).unwrap();
    assert_eq!(trimmed.encode_raw("ab").unwrap(), [2]);
    let pieces = r#""type":"WordPiece","max_input_chars_per_word":9,"unk_token":"b","was":"#;
    let pieces = described(r#""type":"BPE","dropout":null,"unk_token":"#, pieces);
    assert!(matches!(pieces, Err(Error::Tokenizers(_))), "its prefix has to be a string");
}

/// The tokenizer of [`described`], with another part set under a key.
fn with(key: &str, part: &str) -> Tokenizer {
    match described(&format!("{key:?}:null"), &format!("{key:?}:{part}")) {
        Ok(tokenizer) => tokenizer,
        Err(error) => panic!("{part}: {}", error.message()),
    }
}

#[test]
fn a_text_is_rewritten_before_it_is_cut() {
    let cases = [
        (r#"{"type":"Lowercase"}"#, "AB", vec![2]),
        (r#"{"type":"NFKC"}"#, "\u{ff41}\u{ff42}", vec![2]),
        (r#"{"type":"NFC"}"#, "ab", vec![2]),
        (r#"{"type":"Strip","strip_left":true,"strip_right":true}"#, "  ab \n", vec![2]),
        (r#"{"type":"Strip","strip_left":true,"strip_right":true}"#, "  \t ", vec![]),
        (r#"{"type":"Nmt"}"#, "a\u{1}b", vec![2]),
        (r#"{"type":"Prepend","prepend":"a"}"#, "b", vec![2]),
        (r#"{"type":"Prepend","prepend":"a"}"#, "", vec![]),
        (r#"{"type":"Replace","pattern":{"String":".."},"content":"a"}"#, "..b..", vec![2, 0]),
        (r#"{"type":"ByteLevel"}"#, "ab", vec![2]),
        (
            r#"{"type":"BertNormalizer","clean_text":true,"handle_chinese_chars":true,
                "strip_accents":null,"lowercase":true}"#,
            "\u{c1}B",
            vec![2],
        ),
        (
            r#"{"type":"Sequence","normalizers":[{"type":"NFD"},{"type":"StripAccents"},
                {"type":"Lowercase"}]}"#,
            "\u{c1}B",
            vec![2],
        ),
    ];
    for (normalizer, text, ids) in cases {
        let tokenizer = with("normalizer", normalizer);
        assert_eq!(tokenizer.encode_raw(text).unwrap(), ids, "{normalizer}");
        assert!(tokenizer.repeatable());
        let marks = ["\u{344}\u{323}", "e\u{301}\u{323}", "\u{0}\u{fffd}"];
        for odd in ["", " ", "\u{fb01} \u{4e2d}<|endoftext|>"].into_iter().chain(marks) {
            tokenizer.encode_raw(odd).unwrap();
        }
    }
}

#[test]
fn a_text_is_cut_where_it_is_told() {
    let split = r#"{"type":"Split","pattern":{"String":"."},"behavior":"Removed","invert":false}"#;
    assert_eq!(with("pre_tokenizer", split).encode_raw("a.b.ab").unwrap(), [0, 1, 2]);
    let marked = r#"{"type":"CharDelimiterSplit","delimiter":"-"}"#;
    assert_eq!(with("pre_tokenizer", marked).encode_raw("a-bab").unwrap(), [0, 1, 2]);
}

#[test]
fn encodings_are_finished_and_filled_up() {
    let template = r#"{"type":"TemplateProcessing",
        "single":[{"SpecialToken":{"id":"s","type_id":0}},{"Sequence":{"id":"A","type_id":0}},
            {"Sequence":{"id":"A","type_id":0}}],
        "pair":[{"Sequence":{"id":"A","type_id":0}},{"Sequence":{"id":"B","type_id":1}}],
        "special_tokens":{"s":{"id":"s","ids":[1],"tokens":["b"]}}}"#;
    assert_eq!(with("post_processor", template).encode_raw("ab").unwrap(), [2, 2]);
    let level = r#"{"type":"ByteLevel","add_prefix_space":false,"trim_offsets":true}"#;
    let chain = format!(r#"{{"type":"Sequence","processors":[{level},{template}]}}"#);
    assert_eq!(with("post_processor", &chain).encode_raw("ab").unwrap(), [2, 2]);
    let bert = r#"{"type":"BertProcessing","sep":["b",1],"cls":["a",0]}"#;
    assert_eq!(with("post_processor", bert).encode_raw("ab").unwrap(), [2]);
    let roberta = r#"{"type":"RobertaProcessing","sep":["b",1],"cls":["a",0],
        "trim_offsets":true,"add_prefix_space":false}"#;
    assert_eq!(with("post_processor", roberta).encode_raw("ab").unwrap(), [2]);
    let padding = |strategy: &str, multiple: &str| {
        format!(
            r#"{{"strategy":{strategy},"direction":"Right","pad_to_multiple_of":{multiple},
            "pad_id":1,"pad_type_id":0,"pad_token":"b"}}"#
        )
    };
    let fixed = with("padding", &padding(r#"{"Fixed":3}"#, "null"));
    assert_eq!(fixed.encode_raw("ab").unwrap(), [2, 1, 1]);
    let even = with("padding", &padding(r#""BatchLongest""#, "2"));
    assert_eq!(even.encode_raw("ab").unwrap(), [2, 1]);
    let none = r#"{"direction":"Right","max_length":0,"strategy":"LongestFirst","stride":2}"#;
    assert!(with("truncation", none).encode_raw("ab").unwrap().is_empty());
    let replaced = r#"{"type":"Sequence","decoders":[
        {"type":"Replace","pattern":{"String":"b"},"content":"c"},
        {"type":"Strip","content":"a","start":1,"stop":0},{"type":"Fuse"}]}"#;
    assert_eq!(with("decoder", replaced).decode(&[2, 0, 1]).unwrap(), "cc");
}

#[test]
fn tokens_are_weighed_by_their_scores() {
    let document = |vocab: &str| {
        format!(
            r#"{{"version":"1.0","truncation":null,"padding":null,"added_tokens":[],
            "normalizer":null,"pre_tokenizer":null,"post_processor":null,"decoder":null,
            "model":{{"type":"Unigram","unk_id":0,"byte_fallback":false,"vocab":[{vocab}]}}}}"#
        )
        .into_bytes()
    };
    let vocab = format!(r#"["?",0.0],["a",-1.0],["b",-1.0],["ab",-1.5],[{EOS:?},0.0]"#);
    let tokenizer = Tokenizer::load(&document(&vocab)).unwrap();
    assert!(tokenizer.repeatable());
    assert_eq!(tokenizer.encode("abba").unwrap(), [3, 2, 1, 4]);
    assert_eq!(tokenizer.encode_raw("xyz").unwrap(), [0]);
    assert_eq!(tokenizer.decode(&[3, 1]).unwrap(), "ab a");
    let loaded = Tokenizer::load(&tokenizer.save().unwrap().into_bytes()).unwrap();
    assert_eq!(loaded.encode("abba").unwrap(), [3, 2, 1, 4]);
    let long = format!(r#"{vocab},["{}",0.0]"#, "a".repeat(256));
    assert!(Tokenizer::load(&document(&long)).is_ok());
    let longer = format!(r#"{vocab},["{}",0.0]"#, "a".repeat(257));
    assert!(matches!(Tokenizer::load(&document(&longer)), Err(Error::Unsupported)));
    assert!(matches!(Tokenizer::load(&document(r#"["?"]"#)), Err(Error::Unsupported)));
    assert!(matches!(Tokenizer::load(&document(r#"["?","?"]"#)), Err(Error::Tokenizers(_))));
}

#[test]
fn continuations_are_merged_without_their_prefix() {
    let marked = |merge: &str| {
        let was = r#""continuing_subword_prefix":null,"end_of_word_suffix":null,"fuse_unk":false,
            "byte_fallback":false,"vocab":{"a":0,"b":1,"ab":2,"#;
        let to = was
            .replacen("null", r###""##""###, 1)
            .replacen(r#""b":1"#, r###""##b":1"###, 1);
        let document = std::str::from_utf8(&plain()).unwrap().replacen(was, &to, 1);
        Tokenizer::load(&document.replacen(r#"["a","b"]"#, merge, 1).into_bytes())
    };
    let tokenizer = marked(r###"["a","##b"]"###).unwrap();
    assert_eq!(tokenizer.encode_raw("ab").unwrap(), [2]);
    assert_eq!(marked(r###""a ##b""###).unwrap().encode_raw("ab").unwrap(), [2]);
    assert!(matches!(marked(r###"["##b","a"]"###), Err(Error::Unsupported)));
    assert!(matches!(marked(r#"["a","a"]"#), Err(Error::Unsupported)));
}

#[test]
fn added_tokens_take_white_space_along_on_one_side() {
    let left = described(r#""lstrip":false"#, r#""lstrip":true"#).unwrap();
    assert_eq!(left.encode_raw("a  <|endoftext|>b").unwrap(), [0, 3, 1]);
    let right = described(r#""rstrip":false"#, r#""rstrip":true"#).unwrap();
    assert_eq!(right.encode_raw("a<|endoftext|>  b").unwrap(), [0, 3, 1]);
}

#[test]
fn descriptions_that_cannot_be_relied_on_are_refused() {
    let two_texts = r#""post_processor":{"type":"TemplateProcessing",
        "single":[{"Sequence":{"id":"B","type_id":0}}],"pair":[],"special_tokens":{}}"#;
    let two_templates = r#""post_processor":{"type":"Sequence","processors":[
        {"type":"TemplateProcessing","single":[],"pair":[],"special_tokens":{}},
        {"type":"TemplateProcessing","single":[],"pair":[],"special_tokens":{}}]}"#;
    let cases = [
        // Two tokens with one id.
        (r#""b":1"#, r#""b":0"#),
        (r#""b":1"#, r#""b":4294967295"#),
        (r#""b":1"#, r#""b":-1"#),
        // A merge whose product is no token, in both forms.
        (r#""ab":2,"#, ""),
        (r#"["a","b"]"#, r#""b a""#),
        (r#""continuing_subword_prefix":null"#, r#""continuing_subword_prefix":"abc""#),
        (r#""continuing_subword_prefix":null"#, r#""continuing_subword_prefix":1"#),
        (
            r#""truncation":null"#,
            r#""truncation":{"direction":"Right","max_length":1,"strategy":"LongestFirst","stride":2}"#,
        ),
        (r#""padding":null"#, r#""padding":{}"#),
        (r#""padding":null"#, r#""padding":{"strategy":{"Fixed":1048577}}"#),
        (
            r#""padding":null"#,
            r#""padding":{"strategy":"BatchLongest","pad_to_multiple_of":18446744073709551615}"#,
        ),
        // A compiled table, regular expressions and empty patterns.
        (r#""normalizer":null"#, r#""normalizer":{"type":"Precompiled"}"#),
        (r#""normalizer":null"#, r#""normalizer":{"type":"Prepend","prepend":""}"#),
        (
            r#""normalizer":null"#,
            r#""normalizer":{"type":"Replace","pattern":{"Regex":"a+"},"content":"b"}"#,
        ),
        (
            r#""normalizer":null"#,
            r#""normalizer":{"type":"Replace","pattern":{"String":""},"content":"b"}"#,
        ),
        (r#""normalizer":null"#, r#""normalizer":{"type":"BertNormalizer"}"#),
        (
            r#""normalizer":null"#,
            r#""normalizer":{"type":"Sequence","normalizers":[{"type":"Precompiled"}]}"#,
        ),
        (
            r#""normalized":false,"special":true}],
        "normalizer":null"#,
            r#""normalized":true,"special":true}],"normalizer":{"type":"NFC"}"#,
        ),
        (r#""post_processor":null"#, two_texts),
        (r#""post_processor":null"#, two_templates),
        (r#""post_processor":null"#, r#""post_processor":[[],[],{}]"#),
        (r#""pre_tokenizer":null"#, r#""pre_tokenizer":{"type":"FixedLength","length":0}"#),
        (
            r#""pre_tokenizer":null"#,
            r#""pre_tokenizer":{"type":"Sequence","pretokenizers":[{"type":"FixedLength","length":0}]}"#,
        ),
        (
            r#""pre_tokenizer":null"#,
            r#""pre_tokenizer":{"type":"Split","pattern":{"Regex":"a"},"behavior":"Removed","invert":false}"#,
        ),
        (r#""pre_tokenizer":null"#, r#""pre_tokenizer":{"type":"CharDelimiterSplit","length":0}"#),
        (r#""decoder":null"#, r#""decoder":{"type":"Strip","content":" ","start":0,"stop":9}"#),
        (r#""decoder":null"#, r#""decoder":{"type":"BPEDecoder","suffix":"</w>"}"#),
        (r#""lstrip":false,"rstrip":false"#, r#""lstrip":true,"rstrip":true"#),
        (r#""type":"BPE""#, r#""type":"Unigram""#),
        (r#""type":"BPE","dropout":null,"unk_token":null,"#, r#""type":"WordLevel","#),
    ];
    for (from, to) in cases {
        match described(from, to) {
            Err(Error::Unsupported) => {}
            Err(other) => assert_eq!((from, "unsupported"), (to, other.message().as_str())),
            Ok(_) => assert_eq!(from, to, "this was read"),
        }
    }
}

#[test]
fn what_the_crate_refuses_it_says() {
    assert!(matches!(described(r#""1.0""#, r#""2.0""#), Err(Error::Tokenizers(_))));
    assert!(matches!(described(r#"["a","b"]"#, r#"["a","c"]"#), Err(Error::Tokenizers(_))));
    let bare = described(r#""post_processor":null"#, r#""post_processor":{"type":"ByteLevel"}"#);
    assert!(matches!(bare, Err(Error::Tokenizers(_))), "its settings are missing");
    let unnamed = described(r#""normalizer":null"#, r#""normalizer":{"type":"Strip"}"#);
    assert!(matches!(unnamed, Err(Error::Tokenizers(_))));
}
