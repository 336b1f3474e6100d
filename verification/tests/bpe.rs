//! Merging, caching and encoding under a byte-pair tokenizer.
use gigatoken::bpe::budget::CacheBudget;
use gigatoken::bpe::merge::{
    bpe_merge_symbols, bpe_merge_symbols_heap, bpe_merge_symbols_ranked,
    bpe_merge_symbols_short_scalar, bpe_merge_symbols_small, bpe_merge_symbols_with_scratch,
    ranked_merge_key, IdMerges, MergeScratch, RankedMerges, SHORT_MERGE_MAX, SMALL_MERGE_MAX,
};
use gigatoken::bpe::pair_rank::{PairRankTable, PAIR_ID_LIMIT};
use gigatoken::bpe::pretoken_cache::ShortPretokenCache;
use gigatoken::bpe::tiktoken::{Tokenizer, DEFAULT_MAX_CACHE_BYTES};
use gigatoken::pretokenize::keys::{
    pack_pretoken_key, pretoken_key_hash, PretokenSpans, Pretokens, SpanBatch, SpanIter,
    PRETOKEN_CHUNK,
};
use gigatoken::pretokenize::scheme::{pretokenize_as_iter, PretokenizerType};
use gigatoken::token::TokenId;

struct XorShift64(u64);

impl XorShift64 {
    fn next_u64(&mut self) -> u64 {
        self.0 ^= self.0 << 13;
        self.0 ^= self.0 >> 7;
        self.0 ^= self.0 << 17;
        self.0
    }

    fn below(&mut self, n: u64) -> u64 {
        self.next_u64() % n
    }
}

fn key(a: TokenId, b: TokenId) -> u64 {
    ranked_merge_key(a, b)
}

fn random_merges(rng: &mut XorShift64, n_merges: usize, id_range: u32) -> IdMerges {
    let mut merges = IdMerges::new();
    for i in 0..n_merges {
        let a = TokenId(rng.below(id_range as u64) as u32);
        let b = TokenId(rng.below(id_range as u64) as u32);
        merges.entry(key(a, b)).or_insert(TokenId(256 + i as u32));
    }
    merges
}

/// The flat table agrees with the map on every pair.
#[test]
fn pair_rank_table_matches_map() {
    let mut rng = XorShift64(0x1234_5678_9ABC_DEF0);
    let id_range = 4096u32;
    let merges = random_merges(&mut rng, 3000, id_range);
    let table = PairRankTable::build(&merges, id_range as usize).expect("build");
    for (&k, &m) in &merges {
        let (a, b) = (TokenId((k >> 32) as u32), TokenId(k as u32));
        assert_eq!(key(a, b), k);
        assert_eq!(table.rank(a, b), m.0, "pair ({}, {})", a.0, b.0);
    }
    for _ in 0..100_000 {
        let a = TokenId(rng.below(id_range as u64) as u32);
        let b = TokenId(rng.below(id_range as u64) as u32);
        let expected = merges.get(&key(a, b)).map_or(u32::MAX, |m| m.0);
        assert_eq!(table.rank(a, b), expected, "pair ({}, {})", a.0, b.0);
    }
    // IDs that are too large refuse the table.
    assert!(PairRankTable::build(&merges, PAIR_ID_LIMIT as usize + 1).is_none());
    let mut big = merges.clone();
    big.insert(key(TokenId(PAIR_ID_LIMIT as u32), TokenId(0)), TokenId(300));
    assert!(PairRankTable::build(&big, id_range as usize).is_none());
}

/// The short merge gives what the general merge gives.
#[test]
fn short_merges_match_vec_merge_loop() {
    let mut rng = XorShift64(0xDEAD_BEEF_0BAD_F00D);
    for trial in 0..2000 {
        let id_range = 300 + (trial % 7) as u32 * 500;
        let merges = random_merges(&mut rng, 200 + trial % 800, id_range);
        let table = PairRankTable::build(&merges, id_range as usize + 1024).expect("build");
        let n = 2 + rng.below(14) as usize; // 2..=15
        let init: Vec<TokenId> = (0..n)
            .map(|_| TokenId(rng.below(id_range as u64) as u32))
            .collect();

        let mut reference = init.clone();
        bpe_merge_symbols_with_scratch(&merges, &mut reference, &mut MergeScratch::default());

        let mut scalar = [TokenId(77); SHORT_MERGE_MAX];
        scalar[..n].copy_from_slice(&init);
        let len = bpe_merge_symbols_short_scalar(&table, &mut scalar, n);
        assert_eq!(&scalar[..len], &reference[..], "scalar diverged: {init:?}");
        assert!(scalar[n..].iter().all(|&t| t == TokenId(77)), "wrote past {n}: {init:?}");
    }
}

/// Explicit ranks and merged IDs as ranks agree, for short and long inputs.
#[test]
fn ranked_and_id_as_rank_cores_agree() {
    let mut rng = XorShift64(0x5EED_1234_ABCD_0001);
    let mut scratch = MergeScratch::default();
    for trial in 0..1000 {
        let id_range = 300 + (trial % 5) as u32 * 400;
        let merges = random_merges(&mut rng, 200 + trial % 600, id_range);
        let ranked: RankedMerges = merges.iter().map(|(&k, &m)| (k, (m, m.0))).collect();
        let n = 2 + rng.below(63) as usize; // 2..=64
        let init: Vec<TokenId> = (0..n)
            .map(|_| TokenId(rng.below(id_range as u64) as u32))
            .collect();
        let mut reference = init.clone();
        bpe_merge_symbols_with_scratch(&merges, &mut reference, &mut scratch);
        let mut got = init.clone();
        bpe_merge_symbols_ranked(&ranked, &mut got);
        assert_eq!(got, reference, "n={n}: {init:?}");
    }
}

/// What is inserted at the slot of a failed lookup stays across growth.
#[test]
fn get_or_slot_insert_at_roundtrip() {
    let mut cache = ShortPretokenCache::with_pow2_capacity(64);
    assert_eq!(cache.capacity(), 64);
    let keys: Vec<u128> = (1u128..=500).map(|i| i.wrapping_mul(0x9E37_79B9)).collect();
    for (i, &key) in keys.iter().enumerate() {
        let h = pretoken_key_hash(key);
        match cache.get_or_slot(key, h) {
            Ok(_) => panic!("key {i} present before insert"),
            Err(slot) => cache.insert_at(slot, key, h, i as u64, !(i as u64)),
        }
    }
    assert_eq!(cache.len(), keys.len());
    for (i, &key) in keys.iter().enumerate() {
        let h = pretoken_key_hash(key);
        assert_eq!(cache.get_or_slot(key, h), Ok((i as u64, !(i as u64))), "key {i}");
    }
}

/// The tokens of the GPT-2 pretokens of `input`.
fn encode(t: &mut Tokenizer, input: &[u8]) -> Vec<TokenId> {
    let spans = pretokenize_as_iter(input);
    t.memoized_encode(&mut SpanIter::new(input, spans)).concat()
}

fn byte_vocab() -> Vec<Vec<u8>> {
    (0..=255u32).map(|b| vec![b as u8]).collect()
}

fn byte_tokenizer() -> Tokenizer {
    Tokenizer::new(IdMerges::new(), byte_vocab(), None)
}

/// A special token with the content of a vocabulary entry takes its place,
/// here and in forks.
#[test]
fn add_special_token_duplicate_content_agrees_across_forks() {
    // The added ID is above the other.
    let mut merges = IdMerges::new();
    merges.insert(key(TokenId(104), TokenId(105)), TokenId(256)); // 'h' 'i' -> "hi"
    let mut vocab = byte_vocab();
    vocab.push(b"hi".to_vec());
    let mut tok = Tokenizer::new(merges, vocab, None);
    tok.add_special_token(b"hi".to_vec(), TokenId(1000));
    assert_eq!(tok.token_of(b"hi"), Some(TokenId(1000)));
    let mut fork = tok.fork();
    assert_eq!(
        encode(&mut tok, b"hi"),
        vec![TokenId(1000)],
        "parent cache must resolve the duplicate to the added ID (vocab_inv's answer)"
    );
    assert_eq!(
        encode(&mut fork, b"hi"),
        vec![TokenId(1000)],
        "forked worker must agree with the parent"
    );

    // The added ID fills a gap below the other.
    let mut merges = IdMerges::new();
    merges.insert(key(TokenId(104), TokenId(105)), TokenId(257)); // 'h' 'i' -> "hi"
    let mut vocab = byte_vocab();
    vocab.push(Vec::new());
    vocab.push(b"hi".to_vec());
    let mut tok = Tokenizer::new(merges, vocab, None);
    tok.add_special_token(b"hi".to_vec(), TokenId(256));
    assert_eq!(tok.token_of(b"hi"), Some(TokenId(256)));
    let mut fork = tok.fork();
    assert_eq!(encode(&mut tok, b"hi"), vec![TokenId(256)]);
    assert_eq!(encode(&mut fork, b"hi"), vec![TokenId(256)]);
}

#[test]
fn short_pretoken_cache_serves_repeated_pretokens() {
    let mut tokenizer = byte_tokenizer();
    let bytes = b"hello";
    let one = |tok: &mut Tokenizer, bytes: &[u8]| -> Vec<u32> {
        let mut spans = SpanIter::new(bytes, vec![(0, bytes.len())]);
        let tokens = tok.memoized_encode(&mut spans);
        assert_eq!(tokens.len(), 1);
        tokens[0].iter().map(|t| t.0).collect()
    };

    let first = one(&mut tokenizer, bytes);
    let expected: Vec<u32> = bytes.iter().map(|&byte| byte as u32).collect();
    assert_eq!(first, expected);
    // The 256 bytes are there from the start; "hello" is the one that came.
    assert_eq!(tokenizer.cache_mem_stats().0, 257);

    let repeated = one(&mut tokenizer, bytes);
    assert_eq!(repeated, first);
    assert_eq!(tokenizer.cache_mem_stats().0, 257);

    // An empty pretoken is held with the long ones.
    assert_eq!(tokenizer.cache_mem_stats().2, 0);
    assert!(one(&mut tokenizer, b"").is_empty());
    assert_eq!(tokenizer.cache_mem_stats().2, 1);
    assert_eq!(tokenizer.cache_entries(), 258);
}

/// Without added tokens a text is one segment.
#[test]
fn encode_with_added_tokens_matches_memoized_encode_all_schemes() {
    let schemes = [
        PretokenizerType::GPT2,
        PretokenizerType::GPT4,
        PretokenizerType::Qwen2,
        PretokenizerType::Qwen35,
        PretokenizerType::Olmo3,
        PretokenizerType::O200k,
        PretokenizerType::Nemotron,
        PretokenizerType::Kimi,
    ];
    let input = "Hello, 世界! café 12345\r\ncan't  stop".as_bytes();

    for scheme in schemes {
        let mut reference = byte_tokenizer();
        let mut expected = Vec::new();
        reference.memoized_encode_flat(&mut Pretokens::new(scheme, input), &mut expected);

        let mut concrete = byte_tokenizer();
        concrete.set_pretokenizer_type(scheme);
        let mut actual = Vec::new();
        concrete.encode_with_added_tokens_flat(input, &mut actual);
        assert_eq!(actual, expected, "dispatch differs for {scheme:?}");
        assert_eq!(actual.len(), input.len());
    }
}

/// A tokenizer of the bytes, `extra_vocab`, merges by place in `pairs`, and
/// `added` special tokens. With `ranked`, the places are explicit ranks.
fn synth_tokenizer(
    extra_vocab: Vec<Vec<u8>>,
    pairs: &[(TokenId, TokenId, u32)],
    added: &[(&[u8], u32)],
    ranked: bool,
) -> Tokenizer {
    let mut vocab = byte_vocab();
    vocab.extend(extra_vocab);
    let mut tok = if ranked {
        let mut rm = RankedMerges::new();
        for (rank, &(a, b, id)) in pairs.iter().enumerate() {
            rm.insert(key(a, b), (TokenId(id), rank as u32));
        }
        Tokenizer::new_ranked(rm, vocab, None)
    } else {
        let mut merges = IdMerges::new();
        for &(a, b, id) in pairs {
            merges.insert(key(a, b), TokenId(id));
        }
        Tokenizer::new(merges, vocab, None)
    };
    tok.set_pretokenizer_type(PretokenizerType::GPT2);
    tok.add_special_tokens(added.iter().map(|&(c, id)| (c.to_vec(), TokenId(id))).collect());
    tok
}

/// Word merges, a special token, and one that takes the place of "the".
fn budget_test_tokenizer(ranked: bool) -> Tokenizer {
    let t = |b: u8| TokenId(b as u32);
    let pairs = [
        (t(b't'), t(b'h'), 256),
        (TokenId(256), t(b'e'), 257),
        (t(b'a'), t(b'n'), 258),
        (TokenId(258), t(b'd'), 259),
        (t(b'i'), t(b'n'), 260),
        (TokenId(260), t(b'g'), 261),
        (t(b'e'), t(b'r'), 262),
    ];
    let extra = [
        b"th".as_slice(), b"the", b"an", b"and", b"in", b"ing", b"er",
    ]
    .map(<[u8]>::to_vec)
    .to_vec();
    let added: &[(&[u8], u32)] = &[(b"<|doc|>", 300), (b"the", 301)];
    synth_tokenizer(extra, &pairs, added, ranked)
}

const LOWER: &[u8] = b"abcdefghijklmnopqrstuvwxyz";
const MIXED: &[u8] = b"abcdefghijklmnopqrstuvwxyzABCDEFGHIJKLMNOPQRSTUVWXYZ";

/// Random words, each after a space.
fn random_words(
    rng: &mut XorShift64,
    n: usize,
    len: usize,
    alphabet: &[u8],
) -> Vec<u8> {
    let mut out = Vec::new();
    for _ in 0..n {
        out.push(b' ');
        for _ in 0..len {
            out.push(alphabet[(rng.next_u64() % alphabet.len() as u64) as usize]);
        }
    }
    out
}

/// Wipes since the budget was set.
fn wipe_gens(tok: &Tokenizer) -> u64 {
    tok.cache_generations()
}

/// Common words, rare words, long words, digits, other scripts and added
/// tokens.
fn budget_test_corpus(n_words: usize, seed: u64) -> Vec<u8> {
    let mut rng = XorShift64(seed);
    let common: [&str; 20] = [
        "the", "and", "ing", "her", "that", "with", "for", "was", "his", "not", "this",
        "but", "from", "they", "she", "which", "were", "been", "have", "their",
    ];
    let unicode: [&str; 7] = [
        "世界", "café", "naïve", "🦀🔥", "héllo", "Übung", "переменная",
    ];
    let mut out: Vec<u8> = Vec::new();
    for i in 0..n_words {
        match rng.next_u64() % 100 {
            0..=39 => {
                // Zipf-ish head: min of two draws skews low indices.
                let idx = (rng.next_u64() % 20).min(rng.next_u64() % 20) as usize;
                out.extend_from_slice(common[idx].as_bytes());
            }
            40..=79 => {
                // Rare short words (<= 15 bytes with the leading
                // space): mostly-distinct cache pressure; 4+ letters
                // encode to 5+ tokens with the space, spilling to
                // the arena.
                let len = 3 + (rng.next_u64() % 8) as usize;
                for _ in 0..len {
                    out.push(b'a' + (rng.next_u64() % 26) as u8);
                }
            }
            80..=86 => {
                // > 15 bytes: the long-map path.
                let len = 16 + (rng.next_u64() % 40) as usize;
                for _ in 0..len {
                    out.push(b'a' + (rng.next_u64() % 26) as u8);
                }
            }
            87..=90 => {
                let len = 1 + (rng.next_u64() % 12) as usize;
                for _ in 0..len {
                    out.push(b'0' + (rng.next_u64() % 10) as u8);
                }
            }
            91..=94 => {
                out.extend_from_slice(unicode[(rng.next_u64() % 7) as usize].as_bytes());
            }
            95..=96 => out.extend_from_slice(b"!?.,;:()[]{}--"),
            97..=98 => out.extend_from_slice(b"<|doc|>"),
            _ => out.extend_from_slice(b"the weather"),
        }
        out.push(if i % 17 == 0 { b'\n' } else { b' ' });
    }
    out
}

/// A tokenizer that wipes its caches gives what one without a budget gives.
#[test]
fn budgeted_wipe_parity_and_bounds() {
    for ranked in [false, true] {
        let corpus = budget_test_corpus(300_000, 0x1234_5678_9ABC_DEF0);

        let mut unbounded = budget_test_tokenizer(ranked);
        unbounded.set_max_cache_bytes(None);
        let mut expected: Vec<u32> = Vec::new();
        unbounded.encode_with_added_tokens_flat(&corpus, &mut expected);
        assert_eq!(wipe_gens(&unbounded), 0);

        let mut budgeted = budget_test_tokenizer(ranked);
        budgeted.set_max_cache_bytes(Some(4 << 20));
        let (short_slots, arena_entries, long_bytes) = {
            let b = budgeted.cache_budget().unwrap();
            (b.short_slots, b.arena_entries, b.long_bytes)
        };
        assert!(
            budgeted.cache_mem_stats().1 <= short_slots,
            "short table starts above its ceiling"
        );

        // A budgeted fork inherits the full budget with fresh counters.
        let fork = budgeted.fork();
        assert!(fork.cache_mem_stats().1 <= short_slots);
        let fb = fork.cache_budget().unwrap();
        assert_eq!(fb.total_bytes, 4 << 20);
        assert_eq!((fb.generations, fb.long_bytes_used), (0, 0));

        let mut actual: Vec<u32> = Vec::new();
        budgeted.encode_with_added_tokens_flat(&corpus, &mut actual);

        let gens = wipe_gens(&budgeted);
        assert!(
            gens >= 3,
            "expected several wipes at a 4 MB budget, got {gens} (ranked={ranked})"
        );
        assert_ids_eq(&actual, &expected, &format!("budgeted (ranked={ranked})"));

        let (short_len, short_cap, _, _, long_key_bytes, arena_len, _) =
            budgeted.cache_mem_stats();
        let b = budgeted.cache_budget().unwrap();
        assert!(short_cap <= short_slots, "short table grew past its ceiling");
        assert!(short_len * 4 <= short_cap * 3, "short table past 3/4 load");
        assert!(
            arena_len <= arena_entries + b.max_encoding + 256,
            "arena_len {arena_len} exceeds its budget {arena_entries}"
        );
        assert!(
            b.long_bytes_used <= long_bytes + 4096,
            "long map {} exceeds its budget {long_bytes}",
            b.long_bytes_used
        );
        assert!(long_key_bytes <= b.long_bytes_used as u128);

        assert_eq!(
            encode(&mut budgeted, b"the"),
            vec![TokenId(301)],
            "wipe lost the added-token overwrite (ranked={ranked})"
        );
        assert_eq!(encode(&mut unbounded, b"the"), vec![TokenId(301)]);

        // Dropping the budget restores unbounded semantics without
        // touching cache contents.
        budgeted.set_max_cache_bytes(None);
        assert_eq!(wipe_gens(&budgeted), 0);
        assert!(budgeted.cache_budget().is_none());
    }
}

/// A vocabulary that nearly fills the table gets a larger one.
#[test]
fn budgeted_wipe_headroom_near_seed_boundary() {
    let extra = (0..48_500u32).map(|i| format!("v{i:05}").into_bytes()).collect();
    let mut tok = synth_tokenizer(extra, &[], &[], false);
    tok.set_max_cache_bytes(Some(4 << 20));
    let short_slots = tok.cache_budget().unwrap().short_slots;
    assert!(
        tok.cache_mem_stats().0 * 8 <= short_slots * 5,
        "seed {} over 5/8 of {short_slots} slots",
        tok.cache_mem_stats().0
    );

    // ~124k distinct 3-letter words: 4-token inline values, so the
    // short table is the only wipe trigger.
    let mut rng = XorShift64(0x0DDB_1A5E_5BAD_5EED);
    let corpus = random_words(&mut rng, 300_000, 3, MIXED);
    let mut out: Vec<u32> = Vec::new();
    tok.encode_with_added_tokens_flat(&corpus, &mut out);
    assert!(!out.is_empty());

    let gens = wipe_gens(&tok);
    assert!(gens >= 1, "corpus no longer fills the table");
    assert!(gens <= 10, "wipe-thrash: {gens} wipes for ~124k distinct pretokens");
    let (_, short_cap, ..) = tok.cache_mem_stats();
    assert_eq!(short_cap, short_slots, "a wiping table sits exactly at its ceiling");
}

/// A giant pretoken does not wipe the caches each time.
#[test]
fn budgeted_wipe_giant_pretoken_no_thrash() {
    let mut rng = XorShift64(0x61A7_0000_C0FF_EE00);
    // One 300k-letter pretoken; 'h' excluded so the added token
    // "the" cannot split it into many medium segments (a different
    // overflow shape than the single-encoding one pinned here).
    let giant = random_words(&mut rng, 1, 300_000, b"abcdefgijklmnopqrstuvwxyz");
    let occurrences = 30usize;
    let mut corpus = Vec::new();
    for i in 0..occurrences {
        corpus.extend_from_slice(&giant);
        corpus.extend_from_slice(format!(" filler{i} words here\n").as_bytes());
    }

    let mut unbounded = budget_test_tokenizer(false);
    unbounded.set_max_cache_bytes(None);
    let mut expected: Vec<u32> = Vec::new();
    unbounded.encode_with_added_tokens_flat(&corpus, &mut expected);

    let mut tok = budget_test_tokenizer(false);
    tok.set_max_cache_bytes(Some(4 << 20));
    // Test premise: the giant's ~297k-token encoding exceeds the
    // arena sub-budget outright.
    let arena_entries = tok.cache_budget().unwrap().arena_entries;
    assert!(
        arena_entries < 290_000,
        "premise broken: arena sub-budget {arena_entries} no longer \
         below the giant's encoding"
    );
    let mut out: Vec<u32> = Vec::new();
    tok.encode_with_added_tokens_flat(&corpus, &mut out);
    assert_eq!(out, expected, "budgeted output diverged");

    let gens = wipe_gens(&tok);
    assert!(
        (gens as usize) <= 2,
        "wipe per giant occurrence: {gens} wipes for {occurrences} occurrences"
    );
}

/// Changes after a budget is set divide it anew.
#[test]
fn budgeted_rederive_after_loader_mutation() {
    let mut unbounded = budget_test_tokenizer(false);
    unbounded.set_max_cache_bytes(None);
    let mut tok = budget_test_tokenizer(false);
    // Tight budget: the short table swallows all of it, so the arena
    // sub-budget sits at its seed-derived floor.
    tok.set_max_cache_bytes(Some(2 << 20));
    let stale_arena = tok.cache_budget().unwrap().arena_entries;
    assert!(stale_arena < 8192, "premise: floor-bound arena sub-budget, got {stale_arena}");

    // 2000 added tokens whose 11-byte contents seed as 11-token
    // arena spills: 22k entries, far past the stale 4096 floor.
    let added: Vec<(Vec<u8>, TokenId)> = (0..2000u32)
        .map(|i| (format!("«tok{i:04}»").into_bytes(), TokenId(1000 + i)))
        .collect();
    tok.add_special_tokens(added.clone());
    unbounded.add_special_tokens(added);

    let b = tok.cache_budget().unwrap();
    assert_eq!(b.total_bytes, 2 << 20, "budget lost across loader mutation");
    assert_eq!(b.generations, 0);
    let arena_entries = b.arena_entries;
    assert!(
        tok.cache_mem_stats().5 <= arena_entries,
        "re-derived arena floor {arena_entries} below the new seed {}",
        tok.cache_mem_stats().5
    );
    assert!(arena_entries > stale_arena);

    let corpus = budget_test_corpus(50_000, 0xFEED_FACE_CAFE_F00D);
    let mut expected: Vec<u32> = Vec::new();
    unbounded.encode_with_added_tokens_flat(&corpus, &mut expected);
    let mut out: Vec<u32> = Vec::new();
    tok.encode_with_added_tokens_flat(&corpus, &mut out);
    assert_eq!(out, expected, "budgeted output diverged");

    let gens = wipe_gens(&tok);
    assert!(gens >= 1);
    assert!(
        gens <= 40,
        "wipe-thrash after loader mutation: {gens} wipes for 50k words"
    );
    let b = tok.cache_budget().unwrap();
    let (_, _, _, _, _, arena_len, _) = tok.cache_mem_stats();
    assert!(arena_len <= b.arena_entries + b.max_encoding + 256);
}

/// A table grows up to its ceiling and is wiped there.
#[test]
fn default_budget_lifecycle() {
    // The fixture runs a loader-shaped sequence: constructor,
    // set_pretokenizer_type, add_special_tokens.
    let mut tok = budget_test_tokenizer(false);
    assert_eq!(tok.max_cache_bytes(), Some(DEFAULT_MAX_CACHE_BYTES));
    assert_eq!(tok.fork().max_cache_bytes(), tok.max_cache_bytes());
    assert_eq!(
        tok.cache_mem_stats().1,
        1 << 16,
        "default budget must not presize the table"
    );
    assert!(tok.cache_mem_stats().6 < 1 << 20, "eager arena preallocation");
    // Loader-phase mutation re-derives the split.
    tok.add_special_tokens(vec![(b"<|extra|>".to_vec(), TokenId(400))]);
    assert_eq!(tok.cache_mem_stats().1, 1 << 16);
    assert_eq!(tok.max_cache_bytes(), Some(DEFAULT_MAX_CACHE_BYTES));

    // 16 MiB gives a 2^18-slot ceiling to observe growth against;
    // the ceiling-growth mechanics are budget-independent.
    tok.set_max_cache_bytes(Some(16 << 20));
    let ceiling = tok.cache_budget().unwrap().short_slots;
    assert_eq!(ceiling, 1 << 18);
    assert_eq!(tok.cache_mem_stats().1, 1 << 16, "budget must not presize either");

    let mut rng = XorShift64(0xCE11_1216_5107_C047);
    let mut out: Vec<u32> = Vec::new();
    // ~35k distinct 3-letter words: under the seed table's 3/4
    // threshold (inline 4-token values — no arena traffic).
    tok.encode_with_added_tokens_flat(&random_words(&mut rng, 40_000, 3, MIXED), &mut out);
    assert_eq!(wipe_gens(&tok), 0);
    assert_eq!(tok.cache_mem_stats().1, 1 << 16, "grew too early");
    // ~140k distinct: grows 2^16 -> 2^17 -> 2^18 with zero wipes
    // (the ceiling's 196k threshold is unreachable with 3 letters).
    tok.encode_with_added_tokens_flat(&random_words(&mut rng, 600_000, 3, MIXED), &mut out);
    assert_eq!(wipe_gens(&tok), 0, "wiped below the ceiling");
    assert_eq!(tok.cache_mem_stats().1, ceiling, "must reach the ceiling");
    // ~120k more distinct 4-letter words push load past 3/4 AT the
    // ceiling (spills stay well under the arena sub-budget).
    tok.encode_with_added_tokens_flat(&random_words(&mut rng, 150_000, 4, LOWER), &mut out);
    assert!(wipe_gens(&tok) >= 1, "no wipe at the ceiling");
    assert_eq!(tok.cache_mem_stats().1, ceiling, "wipe must keep the ceiling");

    tok.set_max_cache_bytes(None);
    assert_eq!(tok.max_cache_bytes(), None);
    assert_eq!(tok.fork().max_cache_bytes(), None);
}

/// Token streams are equal.
fn assert_ids_eq(actual: &[u32], expected: &[u32], label: &str) {
    let i = actual.iter().zip(expected).take_while(|(a, b)| a == b).count();
    assert!(
        actual == expected,
        "{label}: diverged at token {i} (len {} vs expected {})",
        actual.len(),
        expected.len()
    );
}

/// The key of a short pretoken at every place of a buffer.
#[test]
fn verify_pack_pretoken_key_all_page_offsets() {
    let mut buf = vec![0u8; 12288];
    let mut rng = XorShift64(0x0123_4567_89AB_CDEF);
    for b in buf.iter_mut() {
        *b = rng.next_u64() as u8;
        if *b == 0 {
            *b = 1; // avoid zero lanes masking length-tag mistakes
        }
    }
    for start in 0..buf.len() - 16 {
        for n in 0..=15usize {
            let span = &buf[start..start + n];
            let key = pack_pretoken_key(span);
            let mut lanes = [0u8; 16];
            lanes[..n].copy_from_slice(span);
            let naive = if n == 0 {
                0u128
            } else {
                u128::from_le_bytes(lanes) | ((n as u128) << 120)
            };
            assert_eq!(
                key,
                Some(naive),
                "pack_pretoken_key mismatch at buf offset {start}, len {n}"
            );
        }
    }
    // Length > 15 routes to the long map.
    assert_eq!(pack_pretoken_key(&buf[..16]), None);
}

const WALKED_SCHEMES: [PretokenizerType; 8] = [
    PretokenizerType::GPT2,
    PretokenizerType::GPT4,
    PretokenizerType::Qwen2,
    PretokenizerType::Qwen35,
    PretokenizerType::Olmo3,
    PretokenizerType::O200k,
    PretokenizerType::Nemotron,
    PretokenizerType::Kimi,
];

/// Merges of common pairs, and the tokenizer of them.
fn walker_tokenizer() -> (IdMerges, Tokenizer) {
    let mut merges = IdMerges::new();
    let mut vocab = byte_vocab();
    let pairs: [(u32, u32); 8] = [
        (b't' as u32, b'h' as u32),
        (256, b'e' as u32),
        (b' ' as u32, b'a' as u32),
        (b'e' as u32, b' ' as u32),
        (b'l' as u32, b'l' as u32),
        (b'a' as u32, b'a' as u32),
        (261, 261),
        (0xFF, 0xFF),
    ];
    for (a, b) in pairs {
        let id = vocab.len() as u32;
        let text = [vocab[a as usize].clone(), vocab[b as usize].clone()].concat();
        vocab.push(text);
        merges.insert(key(TokenId(a), TokenId(b)), TokenId(id));
    }
    (merges.clone(), Tokenizer::new(merges, vocab, None))
}

/// The tokens of one pretoken, merged without a cache.
fn plain_encode_pretoken(merges: &IdMerges, pretoken: &[u8], out: &mut Vec<u32>) {
    let mut symbols: Vec<TokenId> = pretoken.iter().map(|&b| TokenId(b as u32)).collect();
    bpe_merge_symbols(merges, &mut symbols);
    out.extend(symbols.iter().map(|t| t.0));
}

/// Pretoken lengths through keyed batches.
fn two_phase_lens(mut p: impl PretokenSpans) -> Vec<usize> {
    let mut batch = SpanBatch::new();
    let mut lens = Vec::new();
    loop {
        let n = p.fill_spans_keyed(&mut batch);
        for i in 0..n {
            lens.push(batch.entries[i].span_len() as usize);
        }
        if n < PRETOKEN_CHUNK {
            return lens;
        }
    }
}

/// Under every scheme, the pretokens partition the bytes, and the cached
/// encoding is that of the pretokens one by one.
fn check_all_schemes(merges: &IdMerges, tok: &mut Tokenizer, span: &[u8]) {
    for scheme in WALKED_SCHEMES {
        let spans = scheme.pretokenize(span);
        let mut off = 0usize;
        for &(a, b) in &spans {
            assert!(a == off && a < b && b <= span.len(), "{scheme:?}: bad pretoken at {off}");
            off = b;
        }
        assert_eq!(off, span.len(), "{scheme:?}: pretokens cover {off} of {} bytes", span.len());
        let mut got: Vec<u32> = Vec::new();
        tok.memoized_encode_flat(&mut Pretokens::new(scheme, span), &mut got);
        let mut expected: Vec<u32> = Vec::new();
        for &(a, b) in &spans {
            plain_encode_pretoken(merges, &span[a..b], &mut expected);
        }
        assert_ids_eq(&got, &expected, &format!("{scheme:?}"));
    }
}

fn check_public_path(merges: &IdMerges, tok: &mut Tokenizer, span: &[u8]) {
    let mut expected: Vec<u32> = Vec::new();
    for (a, b) in PretokenizerType::GPT2.pretokenize(span) {
        plain_encode_pretoken(merges, &span[a..b], &mut expected);
    }
    let mut cached: Vec<u32> = Vec::new();
    tok.encode_with_added_tokens_flat(span, &mut cached);
    assert_ids_eq(&cached, &expected, "public path");
}

/// Where bytes lie in memory makes no difference.
#[test]
fn verify_walker_alignment_invariance() {
    let (_, mut tok) = walker_tokenizer();
    // Inputs chosen to stress batch-edge machinery: long runs of one
    // class, class flips near multiples of 64, multi-byte chars
    // straddling batch edges, contractions, digit groups.
    let mut inputs: Vec<Vec<u8>> = Vec::new();
    for n in [63usize, 64, 65, 127, 128, 129, 255, 256, 300, 4096] {
        for fill in [&b"a"[..], b"5", b" ", b"!", b"\n", "\u{e9}".as_bytes(), "\u{597d}".as_bytes()] {
            let mut v = Vec::new();
            while v.len() < n {
                v.extend_from_slice(fill);
            }
            inputs.push(v);
        }
    }
    let mut rng = XorShift64(0x9E37_79B9_7F4A_7C15);
    const PIECES: &[&str] = &[
        " the", " a", "word", "05", "  ", "\n", "'s", "n't", ",", " \u{e9}t\u{e9}",
        "\u{597d}\u{597d}", " 123", "...", "\t", " I'm", "\u{2014}", "e", " ",
    ];
    for _ in 0..200 {
        let target = 80 + (rng.next_u64() % 400) as usize;
        let mut v = Vec::new();
        while v.len() < target {
            v.extend_from_slice(
                PIECES[(rng.next_u64() % PIECES.len() as u64) as usize].as_bytes(),
            );
        }
        inputs.push(v);
    }

    for (which, input) in inputs.iter().enumerate() {
        // Copy the same bytes at every offset 0..64 of a fresh buffer;
        // walker output must be identical for all of them.
        let mut ref_lens: Option<Vec<usize>> = None;
        let mut ref_ids: Option<Vec<u32>> = None;
        for off in 0..64usize {
            let mut buf = vec![0u8; off + input.len() + 64];
            buf[off..off + input.len()].copy_from_slice(input);
            let span = &buf[off..off + input.len()];
            let lens = two_phase_lens(Pretokens::new(PretokenizerType::GPT2, span));
            let mut ids: Vec<u32> = Vec::new();
            tok.memoized_encode_flat(&mut Pretokens::new(PretokenizerType::GPT2, span), &mut ids);
            match (&ref_lens, &ref_ids) {
                (None, _) => {
                    ref_lens = Some(lens);
                    ref_ids = Some(ids);
                }
                (Some(rl), Some(ri)) => {
                    assert!(
                        &lens == rl,
                        "input {which}: pretoken lens differ at offset {off}\n  base: {rl:?}\n  off{off}: {lens:?}\n  input: {:?}",
                        String::from_utf8_lossy(input)
                    );
                    assert!(
                        &ids == ri,
                        "input {which}: token ids differ at offset {off} on {:?}",
                        String::from_utf8_lossy(input)
                    );
                }
                _ => unreachable!(),
            }
        }
    }
}

/// Characters that are cut off at the end.
#[test]
fn walker_truncated_utf8_tail() {
    let (merges, mut tok) = walker_tokenizer();
    // Leads: 2-byte (0xC3), 3-byte (0xE2, and 0xE0 low), 4-byte (0xF0,
    // 0xF4 high), invalid leads (0xF5, 0xF8, 0xFF), continuation (0x80,
    // 0xBF), and 0xC0/0xC1 (invalid 2-byte leads).
    let leads: &[&[u8]] = &[
        b"\xc3",
        b"\xe2",
        b"\xe2\x80",
        b"\xe0",
        b"\xe0\xa0",
        b"\xf0",
        b"\xf0\x9f",
        b"\xf0\x9f\x99",
        b"\xf4",
        b"\xf4\x8f",
        b"\xf4\x8f\xbf",
        b"\xf5",
        b"\xf8\x88",
        b"\xff",
        b"\xff\xff",
        b"\xff\xff\xff",
        b"\x80",
        b"\xbf",
        b"\xc0",
        b"\xc1",
    ];
    let prefixes: &[&[u8]] = &[
        b"",
        b"a",
        b"hello",
        b"hello ",
        b"123",
        b" ",
        b"  \n",
        b"!?",
        "é".as_bytes(),
        "好".as_bytes(),
        b"'s",
        b"\xff\xff\xff\xff", // complete invalid run before the tail
    ];
    for &lead in leads {
        for &prefix in prefixes {
            let mut buf = Vec::with_capacity(prefix.len() + lead.len());
            buf.extend_from_slice(prefix);
            buf.extend_from_slice(lead);
            check_all_schemes(&merges, &mut tok, &buf);
            check_public_path(&merges, &mut tok, &buf);
        }
    }
}

/// Random spans at the end of a buffer.
#[test]
fn walker_boundary_fuzz_memoized_vs_reference() {
    let (merges, mut tok) = walker_tokenizer();
    let mut rng = XorShift64(0x243F_6A88_85A3_08D3);
    const CHARS: &[&str] = &["é", "ü", "好", "日", "🙂", "ß", "—", "\u{0301}", "٣", "क"];
    let iters = 2_000;
    for _ in 0..iters {
        let len = (rng.next_u64() % 65) as usize;
        let pad = (rng.next_u64() % 17) as usize;
        let mut buf: Vec<u8> = Vec::with_capacity(pad + len + 8);
        for _ in 0..pad {
            buf.push(rng.next_u64() as u8);
        }
        let span_start = buf.len();
        match rng.next_u64() % 4 {
            0 => {
                // ASCII text: letters, digits, spaces, punct, contractions
                const POOL: &[u8] = b" aetoAETO059'.,!-\n\t\"()s d";
                while buf.len() - span_start < len {
                    buf.push(POOL[(rng.next_u64() % POOL.len() as u64) as usize]);
                }
            }
            1 => {
                // Raw bytes: full 0..=255, mostly invalid UTF-8,
                // truncated tails included.
                while buf.len() - span_start < len {
                    buf.push(rng.next_u64() as u8);
                }
            }
            2 => {
                // Valid UTF-8 mix: fill to >= len, then trim whole
                // chars back to <= len so the span stays valid UTF-8.
                while buf.len() - span_start < len {
                    if rng.next_u64().is_multiple_of(2) {
                        buf.push(b' ' + (rng.next_u64() % 94) as u8);
                    } else {
                        buf.extend_from_slice(
                            CHARS[(rng.next_u64() % CHARS.len() as u64) as usize].as_bytes(),
                        );
                    }
                }
                while buf.len() - span_start > len
                    || std::str::from_utf8(&buf[span_start..]).is_err()
                {
                    buf.pop();
                }
            }
            _ => {
                // Whitespace-heavy
                const POOL: &[u8] = b"   \n\n\t\r a5.";
                while buf.len() - span_start < len {
                    buf.push(POOL[(rng.next_u64() % POOL.len() as u64) as usize]);
                }
            }
        }
        buf.truncate(span_start + len.min(buf.len() - span_start));
        let span = &buf[span_start..];
        check_all_schemes(&merges, &mut tok, span);
        // <|endoftext|> (13 bytes) cannot occur in <= 64 random bytes.
        check_public_path(&merges, &mut tok, span);
    }
}

/// Pretokens of lengths where their handling changes.
#[test]
fn walker_edge_length_pretokens() {
    let (merges, mut tok) = walker_tokenizer();
    let lens: &[usize] = &[
        1, 2, 7, 8, 14, 15, 16, 17, 31, 32, 63, 64, 65, 127, 128, 255, 256, 4095, 4096,
        4097, 65_535, 65_536, 65_537, 70_003,
    ];
    let fills: &[&[u8]] = &[
        b"a",
        b"5",
        b" ",
        b"!",
        b"\n",
        "\u{e9}".as_bytes(),   // é (2-byte letter)
        "\u{597d}".as_bytes(), // 好 (3-byte letter)
        b"\xff",               // invalid UTF-8
    ];
    for &n in lens {
        for fill in fills {
            // Repeat fill to >= n bytes, then cut to n only for 1-byte
            // fills (multi-byte fills keep whole chars).
            let reps = n / fill.len() + usize::from(n % fill.len() != 0);
            if reps == 0 {
                continue;
            }
            let exact = if fill.len() == 1 { n } else { reps * fill.len() };
            let mut buf: Vec<u8> = Vec::with_capacity(exact);
            while buf.len() < exact {
                buf.extend_from_slice(fill);
            }
            buf.truncate(exact);
            check_all_schemes(&merges, &mut tok, &buf);
            // Space-prefixed variant hits the space-fused starts.
            let mut buf2: Vec<u8> = Vec::with_capacity(exact + 1);
            buf2.push(b' ');
            buf2.extend_from_slice(&buf);
            check_all_schemes(&merges, &mut tok, &buf2);
            // 0xFF run with a letter tail: the exact shape of the
            // >65 KB nondeterminism (the last garbage 4-byte decode
            // straddles into the letters).
            if fill == b"\xff" && exact >= 4 {
                let mut buf3 = buf.clone();
                let e = buf3.len();
                buf3[e - 3..].copy_from_slice(b"cba");
                check_all_schemes(&merges, &mut tok, &buf3);
            }
        }
    }
}

/// A vocabulary in merge order gives back its merges.
#[test]
fn from_ranks_rebuilds_merges() {
    let mut vocab = byte_vocab();
    for text in [&b"th"[..], b"the", b"an", b"and", b"ing"] {
        vocab.push(text.to_vec());
    }
    // "ing" is no merge of two earlier entries.
    let refused = Tokenizer::from_ranks(vocab.clone());
    assert!(matches!(refused, Err(gigatoken::bpe::tiktoken::RanksError::NotOneMerge(260))));
    vocab.truncate(260);
    let mut tok = match Tokenizer::from_ranks(vocab.clone()) {
        Ok(tok) => tok,
        Err(e) => panic!("{e:?}"),
    };
    let pair = |a: &str, b: &str| (a.as_bytes().to_vec(), b.as_bytes().to_vec());
    assert_eq!(
        tok.merge_entries(),
        vec![pair("t", "h"), pair("th", "e"), pair("a", "n"), pair("an", "d")]
    );
    let mut ids = Vec::new();
    tok.encode_with_added_tokens_flat(b"the band", &mut ids);
    assert_eq!(ids, vec![257, 32, 98, 259]);
    let ids: Vec<TokenId> = ids.iter().map(|&t| TokenId(t)).collect();
    assert_eq!(tok.decode(&ids), b"the band");
    // A byte without an entry.
    vocab.remove(7);
    assert!(matches!(
        Tokenizer::from_ranks(vocab),
        Err(gigatoken::bpe::tiktoken::RanksError::MissingByte(7))
    ));
}

/// Form C, by the normalizer: a letter and its mark become one character.
#[test]
fn normalized_text_is_composed() {
    let mut tok = byte_tokenizer();
    let mut plain = Vec::new();
    tok.encode_with_added_tokens_flat("e\u{301}".as_bytes(), &mut plain);
    assert_eq!(plain, vec![0x65, 0xCC, 0x81]);
    tok.set_normalize_nfc(true);
    let mut composed = Vec::new();
    tok.encode_with_added_tokens_flat("e\u{301}".as_bytes(), &mut composed);
    assert_eq!(composed, vec![0xC3, 0xA9]);
}

/// Decoding gives back what was encoded.
#[test]
fn decode_inverts_encode() {
    let mut tok = budget_test_tokenizer(false);
    let text = "the andering <|doc|> of things, caf\u{e9} 12345".as_bytes();
    let mut ids = Vec::new();
    tok.encode_with_added_tokens_flat(text, &mut ids);
    assert!(ids.contains(&300) && ids.contains(&301));
    let ids: Vec<TokenId> = ids.iter().map(|&t| TokenId(t)).collect();
    assert_eq!(tok.decode(&ids), text);
}

/// A pretoken that is a vocabulary entry is that entry, where merges are
/// ignored.
#[test]
fn ignored_merges_take_whole_entries() {
    let mut tok = synth_tokenizer(vec![b"xyz".to_vec()], &[], &[], false);
    let encoded = |tok: &mut Tokenizer| {
        let mut ids = Vec::new();
        tok.encode_with_added_tokens_flat(b"xyz", &mut ids);
        ids
    };
    assert_eq!(encoded(&mut tok), vec![120, 121, 122]);
    tok.set_ignore_merges(true);
    assert_eq!(encoded(&mut tok), vec![256]);
    tok.set_ignore_merges(false);
    assert_eq!(encoded(&mut tok), vec![120, 121, 122]);
}

/// The heap and the scan merge alike.
#[test]
fn heap_and_scan_merge_alike() {
    let mut rng = XorShift64(0xA5A5_0F0F_1234_4321);
    let mut scratch = MergeScratch::default();
    for trial in 0..1000 {
        let id_range = 20 + (trial % 9) as u32 * 40;
        let merges = random_merges(&mut rng, 200 + trial % 600, id_range);
        let n = 2 + rng.below(SMALL_MERGE_MAX as u64 - 1) as usize;
        let init: Vec<TokenId> = (0..n)
            .map(|_| TokenId(rng.below(id_range as u64) as u32))
            .collect();
        let mut by_heap = init.clone();
        bpe_merge_symbols_heap(&merges, &mut by_heap, &mut scratch);
        let mut by_scan = init.clone();
        bpe_merge_symbols_small(&merges, &mut by_scan);
        assert_eq!(by_heap, by_scan, "{init:?}");
    }
    let mut merges = IdMerges::new();
    merges.insert(key(TokenId(1), TokenId(2)), TokenId(256));
    merges.insert(key(TokenId(256), TokenId(3)), TokenId(257));
    let mut symbols = [1, 2, 3, 1, 2].map(TokenId).to_vec();
    bpe_merge_symbols_heap(&merges, &mut symbols, &mut scratch);
    assert_eq!(symbols, [257, 256].map(TokenId));
}

/// The shares of a budget.
#[test]
fn budgets_split_exactly() {
    let b = CacheBudget::derive(16 << 20, 256, 0);
    assert_eq!((b.short_slots, b.arena_entries, b.long_bytes), (1 << 18, 1048576, 4194304));
    assert_eq!((b.total_bytes, b.long_bytes_used, b.max_encoding, b.generations), (16 << 20, 0, 0, 0));
    let b = CacheBudget::derive(0, 0, 0);
    assert_eq!((b.short_slots, b.arena_entries, b.long_bytes), (65536, 4096, 65536));
    // The seed stays within 5/8 of the ceiling.
    assert_eq!(CacheBudget::derive(4 << 20, 48756, 0).short_slots, 131072);
}

/// A fork has a table of about as many slots as the hint.
#[test]
fn forks_take_the_hint() {
    let mut tok = byte_tokenizer();
    tok.set_max_cache_bytes(Some(16 << 20));
    assert_eq!(tok.fork().cache_mem_stats().1, 1 << 16);
    assert_eq!(tok.fork_sized(100_000).cache_mem_stats().1, 1 << 17);
    // The budget allows 2^18 slots.
    assert_eq!(tok.fork_sized(usize::MAX).cache_mem_stats().1, 1 << 18);
    tok.set_max_cache_bytes(None);
    assert_eq!(tok.fork_sized(usize::MAX).cache_mem_stats().1, 1 << 22);
    // The short entries decide, not the added tokens.
    let mut vocab = byte_vocab();
    for i in 0..49151 - 257 {
        vocab.push(format!("{i:07}").into_bytes());
    }
    let mut tok = Tokenizer::new(IdMerges::new(), vocab, None);
    tok.set_max_cache_bytes(None);
    tok.add_special_tokens(vec![(b"<|end|>".to_vec(), TokenId(49150))]);
    assert_eq!(tok.vocab_size(), 49151);
    assert_eq!(tok.fork().cache_mem_stats().0, 49151);
    assert_eq!(tok.fork().cache_mem_stats().1, 1 << 16);
}

/// The merges of a vocabulary in merge order are listed.
#[test]
fn rank_merges_are_listed() {
    let mut vocab = byte_vocab();
    vocab.push(b"ab".to_vec());
    vocab.push(b"abc".to_vec());
    let tok = match Tokenizer::from_ranks(vocab) {
        Ok(tok) => tok,
        Err(e) => panic!("{e:?}"),
    };
    let pair = |a: &str, b: &str| (a.as_bytes().to_vec(), b.as_bytes().to_vec());
    assert_eq!(tok.merge_entries(), vec![pair("a", "b"), pair("ab", "c")]);
    assert_eq!(tok.vocab_size(), 258);
}
