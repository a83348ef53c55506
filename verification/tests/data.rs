use quasar::data::batch::Batcher;
use quasar::data::corpus;
use quasar::data::corpus::{
    readable, reader, supported, Content, Corpus, Entry, Error, Format, Root, Table, Unopened,
};
use quasar::data::path::{extension_of, joined, sort};
use quasar::data::prepare;
use quasar::data::prepare::{
    find_fault, is_held_out, mix, mix_encoded, run, run_encoded, Blend, Encoded, EncodedSource,
    MixSource, Mixer, Pass, SourcePrepared, Step,
};
use quasar::data::shard::{Shards, Writer};
use quasar::data::tokenizer::Tokenizer;
use quasar::{eval, text};
use rand::{Rng, SeedableRng};

fn text_of(chars: Option<Vec<char>>) -> Option<String> {
    chars.map(|chars| chars.into_iter().collect())
}

fn lines(body: &str) -> Content {
    Content::Lines(Ok(body.lines().map(|line| Ok(line.to_string())).collect()))
}

fn tree(files: &[&str]) -> Vec<Root> {
    vec![Root::Tree(files.iter().map(|file| Entry::File(file.to_string())).collect())]
}

#[test]
fn jsonl_yields_one_document_per_line() {
    let corpus = Corpus::open(&tree(&["dir/a.jsonl"]), "text").unwrap();

    let contents = vec![lines("{\"text\":\"one\"}\n{\"text\":\"two\"}\n")];
    let docs: Vec<_> = corpus.docs(&contents).into_iter().map(Result::unwrap).collect();
    assert_eq!(docs, ["one", "two"]);
}

#[test]
fn files_are_read_in_path_order() {
    let corpus = Corpus::open(&tree(&["dir/b.txt", "dir/a.txt"]), "text").unwrap();

    assert_eq!(corpus.files(), &["dir/a.txt", "dir/b.txt"]);
    let contents = vec![
        Content::Text(Ok("first".to_string())),
        Content::Text(Ok("second".to_string())),
    ];
    let docs: Vec<_> = corpus.docs(&contents).into_iter().map(Result::unwrap).collect();
    assert_eq!(docs, ["first", "second"]);
}

#[test]
fn a_missing_field_names_the_file() {
    let corpus = Corpus::open(&tree(&["dir/a.jsonl"]), "text").unwrap();

    let contents = vec![lines("{\"body\":\"one\"}\n")];
    let error = corpus.docs(&contents).remove(0).unwrap_err();

    assert!(error.message().contains("a.jsonl"), "{}", error.message());
    assert_eq!(error.message(), "dir/a.jsonl has no field `text`");
}

/// A downloader may keep transfer metadata below a directory of its own. That
/// must not be mistaken for a document.
#[test]
fn download_cache_metadata_is_not_a_document() {
    let roots = tree(&["dir/a.jsonl", "dir/.cache/huggingface/download/a.jsonl.metadata"]);
    let corpus = Corpus::open(&roots, "text").unwrap();

    let contents = vec![lines("{\"text\":\"one\"}\n")];
    let docs: Vec<_> = corpus.docs(&contents).into_iter().map(Result::unwrap).collect();
    assert_eq!(docs, ["one"]);
}

#[test]
fn a_file_named_itself_is_kept_whatever_it_is() {
    let roots = vec![
        Root::File("z.bin".to_string()),
        Root::Tree(vec![Entry::File("y.bin".to_string()), Entry::File("y.md".to_string())]),
    ];
    let corpus = Corpus::open(&roots, "text").unwrap();
    assert_eq!(corpus.files(), &["y.md", "z.bin"]);

    let contents = vec![Content::Text(Ok("doc".to_string())), Content::Unread];
    let docs = corpus.docs(&contents);
    assert_eq!(docs.len(), 2);
    assert_eq!(docs[1].as_ref().unwrap_err().message(), "z.bin: unknown format");
}

#[test]
fn a_walk_that_breaks_off_is_an_error() {
    let roots = vec![
        Root::File("a.txt".to_string()),
        Root::Tree(vec![Entry::File("b.txt".to_string()), Entry::Unreadable("denied".to_string())]),
        Root::Tree(vec![Entry::Unreadable("later".to_string())]),
    ];
    assert_eq!(Corpus::open(&roots, "text").err().unwrap().message(), "denied");
}

#[test]
fn a_file_that_cannot_be_opened_yields_one_error() {
    let corpus = Corpus::open(&tree(&["a.txt", "b.parquet", "c.jsonl", "d.txt"]), "text").unwrap();
    let contents = vec![
        Content::Text(Ok("one".to_string())),
        Content::Parquet(Err(Unopened::Parquet("corrupt".to_string()))),
        Content::Lines(Err("gone".to_string())),
        Content::Text(Ok("four".to_string())),
    ];

    let docs = corpus.docs(&contents);

    assert_eq!(docs.len(), 4);
    assert_eq!(docs[0].as_ref().unwrap(), "one");
    assert!(matches!(&docs[1], Err(Error::Parquet(why)) if why == "corrupt"));
    assert!(matches!(&docs[2], Err(Error::Io(why)) if why == "gone"));
    assert_eq!(docs[3].as_ref().unwrap(), "four");
    assert_eq!(readable(&docs, 10), ["one", "four"]);
    assert_eq!(readable(&docs, 1), ["one"]);
    assert!(readable(&docs, 0).is_empty());
}

#[test]
fn lines_are_read_one_by_one() {
    let content = Content::Lines(Ok(vec![
        Ok("{\"text\":\"one\"}".to_string()),
        Ok(" \t\u{3000}".to_string()),
        Err("torn".to_string()),
        Ok("not json".to_string()),
        Ok("{\"text\":3}".to_string()),
        Ok("[1]".to_string()),
    ]));
    let docs = reader("a.json", "text", &content);
    assert_eq!(docs.len(), 5, "the blank line is no document");
    assert_eq!(docs[0].as_ref().unwrap(), "one");
    assert!(matches!(&docs[1], Err(Error::Io(why)) if why == "torn"));
    assert!(matches!(&docs[2], Err(Error::Io(_))));
    assert!(matches!(&docs[3], Err(Error::NoField { .. })));
    assert!(matches!(&docs[4], Err(Error::NoField { .. })));
}

#[test]
fn a_parquet_file_needs_its_column() {
    let table = |columns: &[&str]| {
        Content::Parquet(Ok(Table {
            columns: columns.iter().map(|name| name.to_string()).collect(),
            rows: Ok(vec![Ok("one".to_string()), Err("torn".to_string())]),
        }))
    };
    let docs = reader("a.parquet", "text", &table(&["id", "text"]));
    assert_eq!(docs[0].as_ref().unwrap(), "one");
    assert!(matches!(&docs[1], Err(Error::Parquet(why)) if why == "torn"));
    let docs = reader("a.parquet", "text", &table(&["id"]));
    assert_eq!(docs.len(), 1);
    assert!(matches!(&docs[0], Err(Error::NoField { .. })));
}

#[test]
fn extensions_are_those_of_the_file_name() {
    assert_eq!(text_of(extension_of("a/b.txt")).as_deref(), Some("txt"));
    assert_eq!(text_of(extension_of("a.d/b")), None);
    assert_eq!(text_of(extension_of("a/.txt")), None);
    assert_eq!(text_of(extension_of("a/b.tar.gz")).as_deref(), Some("gz"));
    assert_eq!(text_of(extension_of("a/b.txt/")).as_deref(), Some("txt"));
    assert_eq!(text_of(extension_of("a/b.txt/.")).as_deref(), Some("txt"));
    assert_eq!(text_of(extension_of("a/..")), None);
    assert_eq!(text_of(extension_of("b.")).as_deref(), Some(""));
    assert_eq!(corpus::format("x.parquet"), Some(Format::Parquet));
    assert_eq!(corpus::format("x.jsonl"), Some(Format::Json));
    assert_eq!(corpus::format("x.json"), Some(Format::Json));
    assert_eq!(corpus::format("x.text"), Some(Format::Text));
    assert!(supported("x.md") && supported("x.txt") && !supported("x.TXT") && !supported("x"));
}

#[test]
fn paths_sort_by_their_components() {
    let sorted = |paths: &[&str]| -> Vec<String> {
        sort(paths.iter().map(|path| path.to_string()).collect())
    };
    let mut plain: Vec<std::path::PathBuf> =
        ["a.b/c", "a/c", "a", "/z", "../q", "./q", "b//a", "b/a/x", "é", "a-b"]
            .iter()
            .map(std::path::PathBuf::from)
            .collect();
    let ours = sorted(&["a.b/c", "a/c", "a", "/z", "../q", "./q", "b//a", "b/a/x", "é", "a-b"]);
    plain.sort();
    let theirs: Vec<String> = plain.iter().map(|path| path.display().to_string()).collect();
    assert_eq!(ours, theirs);
    assert_eq!(joined("run", "step"), "run/step");
    assert_eq!(joined("run/", "step"), "run/step");
    assert_eq!(joined("", "step"), "step");
}

#[test]
fn text_is_read_as_the_standard_library_reads_it() {
    for s in ["", "0", "+7", "12", "-1", "+", "255", "256", "1 ", "٣", "007"] {
        let chars = text::chars_of(s);
        assert_eq!(text::parse_number(&chars, 0, 255), s.parse::<u8>().ok().map(u64::from), "{s}");
    }
    let spaced = "\u{b} a\u{a0}b\u{2003}\n c\u{200b}d \u{85}";
    let words: Vec<String> =
        text::words_of(spaced).into_iter().map(|word| word.into_iter().collect()).collect();
    assert_eq!(words, spaced.split_whitespace().collect::<Vec<_>>());
    let chars = text::chars_of(spaced);
    assert_eq!(
        text::string_of(&text::trim(&chars, 0, chars.len())),
        spaced.trim()
    );
    assert!(text::has("abcabd", "abd") && !text::has("abcab", "abd") && text::has("x", ""));
}

fn docs(texts: &[&str]) -> Vec<Result<String, Error>> {
    let corpus = Corpus::open(&tree(&["a.jsonl"]), "text").unwrap();
    let body: String = texts.iter().map(|d| format!("{{\"text\":\"{d}\"}}\n")).collect();
    corpus.docs(&vec![lines(&body)])
}

fn tokenizer() -> Tokenizer {
    Tokenizer::train(vec!["the quick brown fox jumps".to_string()], 300).unwrap()
}

#[test]
fn every_document_lands_in_exactly_one_split() {
    let prepared = run(&docs(&["one", "two", "three"]), &tokenizer()).unwrap().prepared;

    assert_eq!(prepared.train.docs + prepared.valid.docs, 3);
}

#[test]
fn the_first_document_is_held_out() {
    let prepared = run(&docs(&["one", "two", "three"]), &tokenizer()).unwrap().prepared;

    assert_eq!(prepared.valid.docs, 1);
}

#[test]
fn the_shards_are_readable_afterwards() {
    let tokenizer = tokenizer();
    let out = run(&docs(&["the quick brown fox", "jumps over"]), &tokenizer).unwrap();

    assert_eq!(out.train.len() as u64, out.prepared.train.tokens);
    assert_eq!(out.train.read(0, out.train.len()), tokenizer.encode("jumps over").unwrap());
    assert_eq!(out.valid.read(0, out.valid.len()), tokenizer.encode("the quick brown fox").unwrap());
    assert_eq!(out.prepared.train.bytes, 10);
    assert_eq!(out.prepared.train.vocab_size, tokenizer.vocab_size());
    assert_eq!(out.prepared.sources[0].train_tokens, out.prepared.train.tokens);
}

#[test]
fn one_document_in_two_hundred_is_held_out() {
    let texts: Vec<String> = (0..401).map(|i| format!("doc {i}")).collect();
    let refs: Vec<&str> = texts.iter().map(String::as_str).collect();

    let prepared = run(&docs(&refs), &tokenizer()).unwrap().prepared;

    assert_eq!(prepared.valid.docs, 3);
    assert_eq!(prepared.train.docs, 398);
    assert!(is_held_out(0) && !is_held_out(1) && is_held_out(200));
}

/// Passing two corpora to a plain pass would concatenate them, so that a 3:1
/// request became whatever ratio their sizes happened to have. A mixture is
/// measured after tokenisation.
#[test]
fn a_mix_follows_token_weights_instead_of_source_sizes() {
    let first: Vec<_> =
        (0..120).map(|i| format!("alpha lesson number {i} with equal length")).collect();
    let second: Vec<_> =
        (0..120).map(|i| format!("omega lesson number {i} with equal length")).collect();
    let first_refs: Vec<_> = first.iter().map(String::as_str).collect();
    let second_refs: Vec<_> = second.iter().map(String::as_str).collect();
    let all: Vec<String> = first.iter().chain(&second).cloned().collect();
    let tokenizer = Tokenizer::train(all, 400).unwrap();
    let first = docs(&first_refs);
    let second = docs(&second_refs);

    let prepared = mix(
        &vec![MixSource { docs: &first, weight: 3 }, MixSource { docs: &second, weight: 1 }],
        &tokenizer,
        1_000,
    )
    .unwrap()
    .prepared;

    let total: u64 = prepared.sources.iter().map(|source| source.train_tokens).sum();
    let first = prepared.sources[0].train_tokens as f64 / total as f64;
    assert!((first - 0.75).abs() < 0.03, "wanted 75%, prepared {:.2}%", first * 100.0);
    assert!(prepared.train.tokens >= 1_000, "a token budget is a lower bound");
    assert_eq!(total, prepared.train.tokens);
}

fn encoded(sizes: &[usize]) -> Vec<Result<Encoded, prepare::Error>> {
    sizes
        .iter()
        .enumerate()
        .map(|(i, &n)| Ok(Encoded { ids: vec![i as u16; n], bytes: 10 * n }))
        .collect()
}

#[test]
fn a_mix_draws_from_the_source_furthest_behind() {
    let sources = vec![
        EncodedSource { items: encoded(&[1, 5, 5, 5]), weight: 1 },
        EncodedSource { items: encoded(&[2, 5, 5, 5, 5]), weight: 2 },
    ];
    let out = mix_encoded(&sources, 100, 0, 15).unwrap();
    // Both held-out first documents, then one of the first source, then two of
    // the second, whose weight is twice as large.
    assert_eq!(out.valid.read(0, out.valid.len()), [0, 0, 0]);
    assert_eq!(out.train.read(0, out.train.len()), [[1u16; 5], [1; 5], [2; 5]].concat());
    assert_eq!(out.prepared.sources[0].train_tokens, 5);
    assert_eq!(out.prepared.sources[1].train_tokens, 10);
    assert_eq!(out.prepared.train.bytes, 150);
    assert_eq!(out.prepared.valid.docs, 2);
}

#[test]
fn a_mix_says_why_it_breaks_off() {
    let source = |weight| EncodedSource { items: encoded(&[1, 5]), weight };
    let message = |sources: Vec<EncodedSource>, budget| {
        mix_encoded(&sources, 100, 0, budget).err().unwrap().message()
    };
    assert_eq!(message(vec![source(1)], 5), "a mixture needs at least two sources");
    assert_eq!(
        message(vec![source(1), source(1)], 0),
        "the training token budget must be positive"
    );
    assert_eq!(message(vec![source(1), source(0)], 5), "mixture weights must be positive");
    assert_eq!(
        message(vec![source(1), source(1)], 11),
        "mixture source #1 ended after 5 training tokens, before the mixture could reach its \
         11-token budget"
    );
    assert!(mix_encoded(&vec![source(1), source(1)], 100, 0, 10).is_ok());
}

#[test]
fn a_bad_document_fails_its_whole_chunk() {
    let mut items = encoded(&[1, 2, 3]);
    items.push(Err(prepare::Error::Tokenizer(quasar::data::tokenizer::Error::NoEos)));
    items.push(Err(prepare::Error::Corpus(Error::Io("torn".to_string()))));
    assert!(find_fault(&items, 0, 3).is_none());
    assert_eq!(
        find_fault(&items, 0, 5).unwrap().message(),
        "torn",
        "a document that cannot be read comes first"
    );
    assert_eq!(
        find_fault(&items, 3, 1).unwrap().message(),
        "the vocabulary has no <|endoftext|>"
    );
    assert_eq!(run_encoded(&items, 10, 0).err().unwrap().message(), "torn");
    assert_eq!(
        prepare::Error::Uncountable.message(),
        "the corpus holds more than can be counted"
    );
}

#[test]
fn a_pass_counts_across_its_chunks() {
    let mut items = encoded(&[1; 150]);
    let mut pass = Pass::begin();
    let held = pass.take(&items, 0, 150).unwrap();
    assert!(held[0] && !held[1] && held.len() == 150);
    let held = pass.take(&items, 100, 100).unwrap();
    assert!(!held.contains(&true) && held.len() == 50);
    assert_eq!(pass.index, 200);
    assert_eq!(pass.take(&items, 0, 1).unwrap(), [true], "one in two hundred");
    assert!(pass.take(&items, 150, 10).unwrap().is_empty());
    items.push(Err(prepare::Error::Corpus(Error::Io("torn".to_string()))));
    assert_eq!(pass.take(&items, 149, 2).unwrap_err().message(), "torn");
    assert_eq!(pass.index, 201, "a chunk that fails is not counted");
    let mut full = Pass { index: u64::MAX };
    assert!(matches!(full.take(&items, 0, 1), Err(prepare::Error::Uncountable)));
}

#[test]
fn a_pass_read_in_chunks_splits_as_one_that_is_not() {
    let items = encoded(&[2; 450]);
    let whole = run_encoded(&items, 10, 0).unwrap();
    let (mut train, mut valid) = (Writer::create(10, 0), Writer::create(10, 0));
    let mut pass = Pass::begin();
    for from in [0, 200, 400] {
        let held = pass.take(&items, from, 200).unwrap();
        for (item, held) in items[from..].iter().zip(held) {
            let doc = item.as_ref().unwrap();
            let writer = if held { &mut valid } else { &mut train };
            writer.push(&doc.ids, doc.bytes);
        }
    }
    let source = SourcePrepared::of(&train.meta, &valid.meta);
    assert_eq!(train.finish().tokens, whole.train.tokens);
    assert_eq!(valid.finish().tokens, whole.valid.tokens);
    assert_eq!((source.train_docs, source.valid_docs), (447, 3));
    assert_eq!(source.train_tokens, whole.prepared.sources[0].train_tokens);
    assert_eq!(source.valid_bytes, whole.prepared.sources[0].valid_bytes);
}

#[test]
fn a_blend_asks_for_what_it_needs_next() {
    assert_eq!(Blend::new(vec![1], 5).err().unwrap().message(), "a mixture needs at least two sources");
    let items = encoded(&[4, 4, 4]);
    let mut blend = Blend::new(vec![1, 1], 8).unwrap();
    assert_eq!(blend.next(), Step::Read(0));
    blend.fill(0, &items, 0, 2).unwrap();
    assert_eq!(blend.next(), Step::Draw(0));
    assert!(blend.draw(0, 4, 4).unwrap(), "the first document of a source is held out");
    assert!(!blend.draw(0, 4, 4).unwrap());
    assert_eq!(blend.next(), Step::Read(1));
    blend.fill(1, &items, 0, 3).unwrap();
    assert!(blend.draw(1, 4, 4).unwrap());
    assert!(!blend.draw(1, 4, 4).unwrap());
    assert_eq!(blend.next(), Step::Done);
    assert_eq!((blend.mixer.total, blend.ready.clone()), (8, vec![0, 1]));
    assert_eq!(
        blend.fill(0, &items, 3, 2).unwrap_err().message(),
        "mixture source #1 ended after 4 training tokens, before the mixture could reach its \
         8-token budget"
    );
    let torn = vec![Err(prepare::Error::Corpus(Error::Io("torn".to_string())))];
    assert_eq!(blend.fill(0, &torn, 0, 2).unwrap_err().message(), "torn");
    blend.mixer.sources[1].valid_bytes = u64::MAX;
    assert!(matches!(blend.draw(1, 4, 4), Err(prepare::Error::Uncountable)));
    assert_eq!(blend.ready, [0, 1]);
}

#[test]
fn a_mixture_crosses_its_chunks() {
    let source = |weight| EncodedSource { items: encoded(&[1; 600]), weight };
    let out = mix_encoded(&vec![source(1), source(1)], 10, 0, 1000).unwrap();
    assert_eq!(out.train.meta.tokens, 1000);
    let drawn: Vec<u64> =
        out.prepared.sources.iter().map(|s| s.train_docs + s.valid_docs).collect();
    assert_eq!(drawn, [503, 503]);
}

#[test]
fn a_mixer_keeps_count() {
    let mut mixer = Mixer::new(vec![3, 1], 10).unwrap();
    assert!(!mixer.done());
    assert_eq!(mixer.lightest(), 0);
    assert!(mixer.fits(0, 4, 9) && !mixer.fits(2, 4, 9));
    assert!(mixer.record(0, 4, 9), "the first document of a source is held out");
    assert!(!mixer.record(0, 4, 9));
    assert_eq!(mixer.lightest(), 1);
    assert!(mixer.record(1, 1, 1));
    assert!(!mixer.record(1, 6, 1));
    assert!(mixer.done());
    assert_eq!(mixer.sources[0].train_tokens, 4);
    assert_eq!(mixer.sources[1].valid_bytes, 1);
}

fn batcher(tokens: usize, seq_len: usize, batch: usize) -> Batcher {
    let mut writer = Writer::create(1024, 0);
    let doc: Vec<u16> = (0..tokens as u16).collect();
    writer.push(&doc, tokens);
    Batcher::new(writer.finish(), seq_len, batch, 7)
}

#[test]
fn the_target_is_the_input_shifted_by_one() {
    let batcher = batcher(256, 8, 2);

    let batch = batcher.eval(0);

    assert_eq!(batch.input[1..8], batch.target[0..7]);
    assert_eq!(batch.input[..8], [0, 1, 2, 3, 4, 5, 6, 7]);
    assert_eq!(batch.target[8..], [9, 10, 11, 12, 13, 14, 15, 16]);
}

#[test]
fn evaluation_windows_do_not_overlap() {
    let batcher = batcher(256, 8, 2);

    let batch = batcher.eval(0);

    assert_eq!([batch.input[0], batch.input[8]], [0, 8]);
}

#[test]
fn a_corpus_too_small_for_one_batch_still_has_one_to_give() {
    // 1188 tokens, `seq_len` 512, `micro_batch` 32: the shape of a small held-out
    // split.
    let batcher = batcher(1188, 512, 32);

    assert_eq!(batcher.evals(), 1);
    assert_eq!(batcher.eval(0).dims(), (2, 512));
}

#[test]
fn a_corpus_of_one_window_has_one_batch() {
    let batcher = batcher(9, 8, 1);

    assert_eq!(batcher.evals(), 1);
    let batch = batcher.eval(0);
    assert_eq!(batch.input, [0, 1, 2, 3, 4, 5, 6, 7]);
    assert_eq!(batch.target, [1, 2, 3, 4, 5, 6, 7, 8]);
    assert_eq!(batcher.train(3).input, batch.input);
}

#[test]
fn the_last_batch_is_short_rather_than_past_the_end() {
    let batcher = batcher(200, 8, 16);

    assert_eq!(batcher.evals(), 2);
    assert_eq!(batcher.eval(1).dims(), (8, 8));
}

#[test]
fn every_token_is_predicted_exactly_once() {
    let batcher = batcher(200, 8, 5);
    let mut targets: Vec<i32> = Vec::new();
    for index in 0..batcher.evals() {
        targets.extend(batcher.eval(index).target);
    }
    assert_eq!(targets, (1..=192).collect::<Vec<i32>>());
}

#[test]
fn a_step_always_draws_the_same_batch() {
    let batcher = batcher(256, 8, 2);

    let (first, again) = (batcher.train(41), batcher.train(41));

    assert_eq!(first.input, again.input);
}

#[test]
fn different_steps_draw_different_batches() {
    let batcher = batcher(4096, 8, 2);

    let (first, second) = (batcher.train(1), batcher.train(2));

    assert_ne!(first.input, second.input);
}

/// One generator, asked again and again, draws what the batches draw.
#[test]
fn batches_are_drawn_from_one_stream() {
    let batcher = batcher(4096, 8, 50);
    let batch = batcher.train(12);
    let mut rng = rand_chacha::ChaCha8Rng::seed_from_u64(7 ^ 12);
    for row in 0..50 {
        let start: usize = rng.random_range(0..=4096 - 8 - 1);
        assert_eq!(batch.input[row * 8], start as i32);
        assert_eq!(batch.target[row * 8 + 7], start as i32 + 8);
    }
}

#[test]
fn a_validation_pass_is_clamped_to_what_there_is() {
    let batcher = batcher(200, 8, 16);
    assert_eq!(eval::batches(&batcher, 0), 1);
    assert_eq!(eval::batches(&batcher, 1), 1);
    assert_eq!(eval::batches(&batcher, 2), 2);
    assert_eq!(eval::batches(&batcher, 20), 2);
    assert_eq!(eval::counted(&batcher.eval(0)) + eval::counted(&batcher.eval(1)), 192);
    assert_eq!(batcher.windows(), 24);
    assert_eq!(batcher.shards().meta().tokens, 200);
}

#[test]
fn a_split_is_read_where_it_is_asked() {
    let mut writer = Writer::create(64, 3);
    writer.push(&vec![1, 2], 5);
    writer.push(&vec![4], 6);
    let shards: Shards = writer.finish();
    assert_eq!(shards.read(1, 2), [2, 4]);
    let meta = shards.meta();
    assert_eq!((meta.tokens, meta.docs, meta.bytes, meta.vocab_size, meta.eos), (3, 2, 11, 64, 3));
}

#[test]
fn weights_are_relative() {
    let mixed = |weights: [u64; 2]| {
        let sources = vec![
            EncodedSource { items: encoded(&[1, 5, 4, 3, 2, 6]), weight: weights[0] },
            EncodedSource { items: encoded(&[2, 7, 1, 1, 5]), weight: weights[1] },
        ];
        let out = mix_encoded(&sources, 100, 0, 14).unwrap();
        (out.train.tokens, out.valid.tokens)
    };
    assert_eq!(mixed([3, 1]), mixed([75, 25]));
    assert_ne!(mixed([3, 1]), mixed([1, 3]));
}

#[test]
fn a_mixture_stays_within_one_document_of_its_weights() {
    let sizes: Vec<usize> = (0..400).map(|i| 1 + (i * 7) % 13).collect();
    let sources = vec![
        EncodedSource { items: encoded(&sizes), weight: 5 },
        EncodedSource { items: encoded(&sizes), weight: 2 },
        EncodedSource { items: encoded(&sizes), weight: 1 },
    ];
    let out = mix_encoded(&sources, 100, 0, 2_000).unwrap();
    let tokens: Vec<u64> = out.prepared.sources.iter().map(|s| s.train_tokens).collect();
    for i in 0..3 {
        let drawn = out.prepared.sources[i].train_docs + out.prepared.sources[i].valid_docs;
        let last = (0..drawn).rev().find(|&k| !is_held_out(k)).unwrap();
        let ahead = sizes[last as usize] as u64;
        for j in 0..3 {
            let (wi, wj) = (sources[i].weight, sources[j].weight);
            assert!(tokens[i] * wj <= tokens[j] * wi + ahead * wj);
        }
    }
    assert!((2_000..2_013).contains(&out.prepared.train.tokens));
}

#[test]
fn the_order_of_a_listing_does_not_matter() {
    let forwards = Corpus::open(&tree(&["a/x.txt", "a.txt", "b.md"]), "text").unwrap();
    let backwards = Corpus::open(&tree(&["b.md", "a.txt", "a/x.txt"]), "text").unwrap();
    assert_eq!(forwards.files(), backwards.files());
}
