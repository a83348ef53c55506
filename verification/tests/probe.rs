use quasar::probe::{corpus, noise};
use rand::{Rng, SeedableRng};

/// One generator, asked again and again, makes the same corpus.
#[test]
fn a_probe_corpus_is_a_noisy_recurrence() {
    let shards = corpus(512, 1000, 1337);

    let mut rng = rand_chacha::ChaCha8Rng::seed_from_u64(1337);
    let (mut a, mut b) = (1u64, 2u64);
    let mut expected: Vec<u16> = Vec::new();
    for _ in 0..1024 {
        let next = if rng.random_bool(0.1) {
            rng.random_range(0..512u64)
        } else {
            (a * 7 + b * 3 + 1) % 512
        };
        (a, b) = (b, next);
        expected.push(next as u16);
    }
    assert_eq!(shards.tokens, expected);
    let meta = shards.meta();
    assert_eq!((meta.tokens, meta.docs, meta.bytes, meta.vocab_size), (1024, 4, 1024, 512));
    assert_eq!(corpus(512, 0, 1).len(), 0);
}

#[test]
fn noise_follows_its_recurrence() {
    assert_eq!(noise(0), 1_013_904_223);
    assert_eq!(noise(23), 23u32.wrapping_mul(1_664_525).wrapping_add(1_013_904_223));
    assert_eq!(noise(u32::MAX), u32::MAX.wrapping_mul(1_664_525).wrapping_add(1_013_904_223));
}
