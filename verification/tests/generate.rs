use quasar::data::tokenizer::{Tokenizer, EOS};
use quasar::decimal::Decimal;
use quasar::generate::factorio::{
    footprint, Entity, EntitySchema, Grammar, GrammarError, Rule, Schema, State,
};
use quasar::generate::{
    candidates, drawn_token, greedy, total_order_key, Constrained, Generation, Sampler,
};

fn word_tokenizer(extra: &[&str]) -> Tokenizer {
    let mut tokens: Vec<String> =
        ["<unk>", EOS, "<e>", "</bp>", "t:input", "t:output"].iter().map(|t| t.to_string()).collect();
    tokens.extend((0..64).map(|value| format!("x{value:02}")));
    tokens.extend((0..64).map(|value| format!("y{value:02}")));
    tokens.extend((0..8).map(|value| format!("d{value}")));
    tokens.extend(extra.iter().map(|token| (*token).to_owned()));
    let vocab: Vec<String> =
        tokens.iter().enumerate().map(|(id, token)| format!("{token:?}:{id}")).collect();
    let document = format!(
        r#"{{"version":"1.0","truncation":null,"padding":null,
            "added_tokens":[{{"id":1,"content":{EOS:?},"single_word":false,"lstrip":false,
                "rstrip":false,"normalized":false,"special":true}}],
            "normalizer":null,"pre_tokenizer":{{"type":"WhitespaceSplit"}},
            "post_processor":null,"decoder":null,
            "model":{{"type":"WordLevel","vocab":{{{}}},"unk_token":"<unk>"}}}}"#,
        vocab.join(",")
    );
    Tokenizer::load(&document.into_bytes()).unwrap()
}

fn entity(name: &str, width: u8, height: u8, recipes: &[&str], flow: bool) -> EntitySchema {
    EntitySchema {
        name: name.to_string(),
        width,
        height,
        recipes: recipes.iter().map(|recipe| recipe.to_string()).collect(),
        flow,
    }
}

fn schema(entities: Vec<EntitySchema>) -> Schema {
    Schema { version: "factorio-v1".to_string(), entities }
}

fn numbered(base: u16, count: u8) -> Vec<(u16, u8)> {
    (0..count).map(|value| (base + value as u16, value)).collect()
}

fn grammar() -> Grammar {
    let rule = Rule { width: 2, height: 2, recipes: vec![50, 51], flow: false };
    Grammar {
        entities: vec![Entity { id: 10, rule }],
        entity_marker: 1,
        blueprint_end: 2,
        eos: 3,
        xs: numbered(20, 4),
        ys: numbered(30, 4),
        directions: numbered(40, 8),
        flows: vec![60, 61],
    }
}

#[test]
fn schema_and_tokenizer_must_match_before_sampling_starts() {
    let tokenizer = word_tokenizer(&["assembling-machine-1", "r:none"]);
    let schema =
        schema(vec![entity("assembling-machine-1", 3, 3, &["r:none", "r:missing"], false)]);

    let error = Grammar::load(&schema, &tokenizer).err().unwrap();

    assert!(error.message().contains(r#""r:missing" is absent"#));
    assert_eq!(
        error.message(),
        r#"constraint token "r:missing" is absent from the tokenizer"#
    );
}

#[test]
fn a_schema_of_another_version_is_refused() {
    let tokenizer = word_tokenizer(&[]);
    let other = Schema { version: "factorio-v2".to_string(), entities: Vec::new() };
    let error = Grammar::load(&other, &tokenizer).err().unwrap();
    assert!(matches!(&error, GrammarError::Version(version) if version == "factorio-v2"));
    assert_eq!(error.message(), r#"unsupported constraint schema "factorio-v2""#);
}

#[test]
fn a_schema_is_compiled_once() {
    let tokenizer = word_tokenizer(&["b", "a", "r:none"]);
    let schema =
        schema(vec![entity("b", 1, 2, &[], true), entity("a", 3, 3, &["r:none"], false)]);

    let grammar = Grammar::load(&schema, &tokenizer).unwrap();

    let ids: Vec<u16> = grammar.entities.iter().map(|entity| entity.id).collect();
    assert_eq!(ids, [tokenizer.token_id("b").unwrap(), tokenizer.token_id("a").unwrap()]);
    assert_eq!(grammar.entities[1].rule.recipes, [tokenizer.token_id("r:none").unwrap()]);
    assert!(grammar.entities[0].rule.flow);
    assert_eq!(grammar.entity_marker, tokenizer.token_id("<e>").unwrap());
    assert_eq!(grammar.eos, tokenizer.eos());
    assert_eq!(grammar.xs[63], (tokenizer.token_id("x63").unwrap(), 63));
    assert_eq!(grammar.ys[7], (tokenizer.token_id("y07").unwrap(), 7));
    assert_eq!(grammar.directions[7], (tokenizer.token_id("d7").unwrap(), 7));
    assert_eq!(grammar.flows.len(), 2);
}

#[test]
fn a_grammar_is_unambiguous_where_each_token_means_one_thing() {
    assert!(grammar().unambiguous());
    let twice = |mut values: Vec<(u16, u8)>| {
        values[1].0 = values[0].0;
        values
    };
    assert!(!Grammar { xs: twice(numbered(20, 4)), ..grammar() }.unambiguous());
    assert!(!Grammar { ys: twice(numbered(30, 4)), ..grammar() }.unambiguous());
    assert!(!Grammar { blueprint_end: 1, ..grammar() }.unambiguous());
    // A square lies the same way whichever way it faces; an oblong does not.
    let mut directions = numbered(40, 8);
    directions[2].0 = directions[0].0;
    assert!(Grammar { directions: directions.clone(), ..grammar() }.unambiguous());
    let rule = |width| Rule { width, height: 2, recipes: vec![50], flow: false };
    let two = |id| vec![Entity { id: 10, rule: rule(2) }, Entity { id, rule: rule(1) }];
    assert!(Grammar { entities: two(11), ..grammar() }.unambiguous());
    assert!(!Grammar { entities: two(11), directions, ..grammar() }.unambiguous());
    assert!(!Grammar { entities: two(10), ..grammar() }.unambiguous());
    let tokenizer = word_tokenizer(&["a"]);
    let loaded = Grammar::load(&schema(vec![entity("a", 1, 2, &[], false)]), &tokenizer).unwrap();
    assert!(loaded.unambiguous());
}

#[test]
fn syntax_recipes_zone_and_occupancy_are_masked_incrementally() {
    let grammar = grammar();
    let mut decoder = grammar.decoder("<bp> <spec> k:x r:none #2 #4 #4 </spec>");
    assert_eq!(decoder.allowed(), vec![1]);
    decoder.advance(1);
    decoder.advance(10);
    assert!(!decoder.allowed().contains(&23)); // 2x2 cannot start at x03 in a 4-wide zone.
    for token in [20, 30, 40] {
        decoder.advance(token);
    }
    assert_eq!(decoder.allowed(), vec![50, 51]);
    decoder.advance(50);
    assert_eq!(decoder.allowed(), vec![1, 2]);

    // A second 2x2 entity cannot begin at the occupied top-left tile.
    decoder.advance(1);
    decoder.advance(10);
    decoder.advance(20);
    assert!(!decoder.allowed().contains(&30));
}

#[test]
fn the_prompt_bounds_the_zone() {
    let grammar = grammar();
    let sides = |prompt: &str| {
        let decoder = grammar.decoder(prompt);
        (decoder.width, decoder.height)
    };
    assert_eq!(sides("<bp> <spec> k:x r:none #2 #4 #7 </spec>"), (4, 7));
    assert_eq!(sides("<spec> a b c #+9 #0"), (9, 64));
    assert_eq!(sides("<spec> a b c 9 #200"), (64, 64));
    assert_eq!(sides("<spec> a b c #300 #-1"), (64, 64));
    assert_eq!(sides("<spec> a b c #9"), (9, 64));
    assert_eq!(sides("#1 #2 #3 #4 #5"), (64, 64));
    assert_eq!(sides(""), (64, 64));
}

#[test]
fn a_blueprint_fills_its_zone_and_ends() {
    let grammar = grammar();
    let mut decoder = grammar.decoder("<spec> a b c #2 #3");
    for token in [1, 10, 20, 30, 40, 51] {
        assert!(decoder.accepts(token), "{token}");
        decoder.advance(token);
    }
    // Nothing else fits a zone of 2 by 3, so the blueprint has to end.
    assert_eq!(decoder.allowed(), vec![2]);
    assert!(!decoder.accepts(1));
    decoder.advance(2);
    assert_eq!(decoder.allowed(), vec![3]);
    assert_eq!(decoder.state, State::Done);
    assert_eq!(decoder.placed, 1);
}

#[test]
fn allowed_tokens_never_lead_into_a_dead_end() {
    let grammar = grammar();
    for seed in 0..40usize {
        let mut decoder = grammar.decoder("<spec> a b c #5 #4");
        let mut places = 0;
        for turn in 0..200 {
            let offered = decoder.allowed();
            assert!(!offered.is_empty());
            if decoder.state == State::Boundary {
                assert_eq!(offered.contains(&grammar.blueprint_end), decoder.placed > 0);
            }
            places += usize::from(decoder.state == State::Direction);
            decoder.advance(offered[(seed * 31 + turn * 17) % offered.len()]);
            assert_eq!(decoder.placed, places);
        }
        // Every entity of this grammar takes up four cells.
        assert_eq!(decoder.occupied.len(), 4 * decoder.placed);
        assert!(decoder.occupied.iter().all(|cell| cell / 256 < 5 && cell % 256 < 4));
    }
}

#[test]
fn a_zone_too_small_for_anything_offers_nothing() {
    let grammar = grammar();
    assert!(grammar.decoder("<spec> a b c #1 #1").allowed().is_empty());
}

#[test]
fn long_entities_turn_on_their_side() {
    let rule = Rule { width: 1, height: 3, recipes: Vec::new(), flow: true };
    assert_eq!(footprint(&rule, 0), (1, 3));
    assert_eq!(footprint(&rule, 2), (3, 1));
    assert_eq!(footprint(&rule, 4), (1, 3));
    assert_eq!(footprint(&rule, 6), (3, 1));
    let grammar = Grammar { entities: vec![Entity { id: 10, rule }], ..grammar() };
    let mut decoder = grammar.decoder("<spec> a b c #3 #1");
    for token in [1, 10, 20, 30] {
        decoder.advance(token);
    }
    assert_eq!(decoder.allowed(), vec![42, 46], "east and west only");
    decoder.advance(42);
    assert_eq!(decoder.allowed(), vec![60, 61], "no recipe, but a flow");
    decoder.advance(61);
    assert_eq!(decoder.allowed(), vec![2]);
}

fn pair() -> Tokenizer {
    let docs = ["the quick brown fox", "the lazy dog", "quick quick brown"];
    Tokenizer::train(docs.iter().map(|doc| doc.to_string()).collect(), 300).unwrap()
}

#[test]
fn a_generation_is_its_prompt_and_what_follows() {
    let tokenizer = pair();
    let sampler = Sampler { max_tokens: 3, ..Sampler::default() };
    let prompt = tokenizer.encode_raw("the").unwrap();
    let fox = tokenizer.encode_raw(" fox").unwrap();

    let mut text = Generation::start(&tokenizer, "the", 16, &sampler).unwrap();
    assert_eq!(text.context(), prompt);
    for &id in &fox {
        if text.wants_more() {
            text.take(id);
        }
    }
    assert!(text.finish(&tokenizer).unwrap().starts_with("the"));
    let mut ended = Generation::start(&tokenizer, "the", 16, &sampler).unwrap();
    ended.take(tokenizer.eos());
    assert!(!ended.wants_more());
    assert_eq!(ended.finish(&tokenizer).unwrap(), "the");
}

#[test]
fn a_long_generation_slides() {
    let sampler = Sampler { max_tokens: 2, ..Sampler::default() };
    let mut text = Generation::of(vec![5, 6, 7], 0, 3, &sampler);
    text.take(8);
    assert_eq!(text.context(), [6, 7, 8]);
    text.take(9);
    assert!(!text.wants_more());
    assert_eq!(text.ids, [5, 6, 7, 8, 9]);
    assert!(Generation::of(vec![5], 0, 0, &sampler).context().is_empty());
}

#[test]
fn a_constrained_generation_follows_its_grammar() {
    let tokenizer = word_tokenizer(&["chest", "<spec>", "#1", "a", "b", "c"]);
    let schema = schema(vec![entity("chest", 1, 1, &[], false)]);
    let grammar = Grammar::load(&schema, &tokenizer).unwrap();
    let sampler = Sampler::default();
    let mut text =
        Constrained::start(&tokenizer, "<spec> a b c #1 #1", 512, &sampler, &grammar).unwrap();
    let mut taken = Vec::new();
    while text.text.wants_more() {
        let allowed = text.allowed();
        assert_eq!(allowed.len(), if taken.len() == 4 { 8 } else { 1 });
        taken.push(allowed[0]);
        text.take(allowed[0]);
    }
    let ids = |name: &str| tokenizer.token_id(name).unwrap();
    assert_eq!(
        taken,
        [ids("<e>"), ids("chest"), ids("x00"), ids("y00"), ids("d0"), ids("</bp>"), ids(EOS)]
    );
    assert_eq!(text.text.ids.len(), 6 + 6);
}

#[test]
fn sampling_defaults_and_seeds() {
    let sampler = Sampler::default();
    assert_eq!(sampler.temperature, Decimal { digits: 8, exp: -1 });
    assert_eq!((sampler.top_k, sampler.max_tokens, sampler.seed), (40, 128, 1337));
    assert_eq!(sampler.seeded(3).seed, 1340);
    assert_eq!(Sampler { seed: u64::MAX, ..sampler }.seeded(2).seed, 1);
}

fn keys(probs: &[f32]) -> Vec<i32> {
    probs.iter().map(|p| total_order_key(p.to_bits())).collect()
}

#[test]
fn ranks_are_those_of_the_total_order() {
    let values =
        [f32::NEG_INFINITY, -1.5, -0.0, 0.0, f32::MIN_POSITIVE, 1.0, f32::INFINITY, f32::NAN];
    for a in values {
        for b in values {
            let ours = total_order_key(a.to_bits()).cmp(&total_order_key(b.to_bits()));
            assert_eq!(ours, a.total_cmp(&b), "{a} {b}");
        }
    }
}

#[test]
fn top_k_never_leaves_the_top_k() {
    let probs = [0.1, 0.7, 0.05, 0.15];

    let order = candidates(&keys(&probs), 2, None);

    assert_eq!(order, [1, 3]);
    let picks: Vec<u16> =
        [Some(0), Some(1), None].into_iter().map(|hit| drawn_token(&order, hit)).collect();
    assert!(picks.iter().all(|&i| i == 1 || i == 3), "{picks:?}");
}

#[test]
fn a_certain_distribution_always_picks_its_token() {
    let order = candidates(&keys(&[0.0, 0.0, 1.0]), 0, None);

    assert_eq!(order.len(), 3);
    assert_eq!(drawn_token(&order, Some(0)), 2);
}

#[test]
fn a_masked_token_wins_even_when_an_impossible_token_has_more_probability() {
    let order = candidates(&keys(&[0.99, 0.01, 0.0]), 1, Some(&vec![1, 2]));

    assert_eq!(order, [1]);
    assert_eq!(drawn_token(&order, None), 1);
}

#[test]
fn a_legal_token_cannot_underflow_when_an_impossible_one_dominates() {
    let logits = [1_000.0_f32, -1_000.0, -1_001.0];
    let allowed = vec![1_u16, 2];
    let best = greedy(&keys(&logits), &allowed);
    let peak = logits[best as usize];
    let mut weights = vec![0.0; logits.len()];
    for &id in &allowed {
        weights[id as usize] = (logits[id as usize] - peak).exp();
    }

    assert_eq!(candidates(&keys(&weights), 1, Some(&allowed)), [1]);
}

#[test]
fn a_greedy_pick_takes_the_last_of_the_best() {
    assert_eq!(greedy(&vec![5, 9, 9, 1], &vec![0, 1, 2, 3]), 2);
    assert_eq!(greedy(&vec![5, 9, 9, 1], &vec![3, 0]), 0);
}

#[test]
fn candidates_descend() {
    let ranks: Vec<i32> = (0..100).map(|i| (i * 37) % 101).collect();
    let order = candidates(&ranks, 0, None);
    assert_eq!(order.len(), 100);
    assert!(order.windows(2).all(|pair| ranks[pair[0]] >= ranks[pair[1]]));
    assert_eq!(candidates(&ranks, 7, None), order[..7]);
    assert_eq!(candidates(&ranks, 1000, None), order);
}
