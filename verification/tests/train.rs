//! Training merges.
use gigatoken::train::run::{train_bpe, TieBreaking};

fn counts(words: &[(&str, usize)]) -> Vec<(Vec<u8>, usize)> {
    words.iter().map(|&(w, n)| (w.as_bytes().to_vec(), n)).collect()
}

fn merges(words: &[(&str, usize)], vocab_size: usize, tie: TieBreaking) -> Vec<(String, String)> {
    let r = train_bpe(&counts(words), vocab_size, &vec![], tie);
    let text = |v: Vec<u8>| String::from_utf8(v).unwrap();
    r.merges.into_iter().map(|(a, b)| (text(a), text(b))).collect()
}

fn pair(a: &str, b: &str) -> (String, String) {
    (a.to_string(), b.to_string())
}

/// Each merge is of a pair with the greatest count.
#[test]
fn most_frequent_pairs_merge_first() {
    let words = [("low", 5), ("lower", 2), ("newest", 6), ("widest", 3)];
    let got = merges(&words, 256 + 4, TieBreaking::RawTokenIds);
    // "es" and "st" stand 9 times each; the lower IDs win.
    assert_eq!(got[0], pair("e", "s"));
    assert_eq!(got[1], pair("es", "t"));
    // "lo" and "ow" stand 7 times each.
    assert_eq!(got[2], pair("l", "o"));
    assert_eq!(got[3], pair("lo", "w"));
}

/// Training stops when no pair is left.
#[test]
fn training_ends_without_pairs() {
    let got = merges(&[("ab", 2), ("c", 9)], 1000, TieBreaking::HuggingFace);
    assert_eq!(got, vec![pair("a", "b")]);
    assert!(merges(&[], 300, TieBreaking::HuggingFace).is_empty());
    assert!(merges(&[("ab", 2)], 256, TieBreaking::HuggingFace).is_empty());
}

/// The vocabulary is the bytes, the special tokens, and the merges.
#[test]
fn vocabulary_lists_bytes_specials_and_merges() {
    let specials = vec!["<|end|>".to_string()];
    let r = train_bpe(&counts(&[("aaab", 3)]), 259, &specials, TieBreaking::AssembledBytes);
    assert_eq!(r.vocab.len(), 259);
    for b in 0..=255u8 {
        assert_eq!(r.vocab[b as usize], vec![b]);
    }
    assert_eq!(r.vocab[256], b"<|end|>");
    assert_eq!(r.vocab[257], b"aa");
    assert_eq!(r.merges[0], (b"a".to_vec(), b"a".to_vec()));
    assert_eq!(r.merges.len(), 2);
}

/// The order of the words does not matter where ties go by token IDs.
#[test]
fn word_order_is_immaterial() {
    let words = [("low", 5), ("lower", 2), ("newest", 6), ("widest", 3), ("newer", 6), ("low", 1)];
    let mut turned = words;
    turned.reverse();
    for tie in [TieBreaking::RawTokenIds, TieBreaking::HuggingFace] {
        let got = merges(&words, 256 + 12, tie);
        assert_eq!(got.len(), 12);
        assert_eq!(merges(&turned, 256 + 12, tie), got);
    }
}

/// The parts of each merge are earlier entries of the vocabulary.
#[test]
fn merge_parts_are_earlier_entries() {
    let words = [("low", 5), ("lower", 2), ("newest", 6), ("widest", 3)];
    let specials = vec!["<|end|>".to_string()];
    let r = train_bpe(&counts(&words), 256 + 9, &specials, TieBreaking::HuggingFace);
    assert_eq!(r.merges.len(), 8);
    for (i, (a, b)) in r.merges.iter().enumerate() {
        let earlier = &r.vocab[..257 + i];
        assert!(earlier.contains(a) && earlier.contains(b));
        assert_eq!(r.vocab[257 + i], [a.as_slice(), b.as_slice()].concat());
    }
}

/// Short words that do not occur merge after all others.
#[test]
fn words_that_do_not_occur() {
    let got = merges(&[("ab", 2), ("cd", 0), ("e", 0)], 300, TieBreaking::RawTokenIds);
    assert_eq!(got, vec![pair("a", "b"), pair("c", "d")]);
    let got = merges(&[("ab", 2), ("cde", 0)], 257, TieBreaking::RawTokenIds);
    assert_eq!(got, vec![pair("a", "b")]);
    assert!(merges(&[("cde", 0)], 256, TieBreaking::RawTokenIds).is_empty());
    let got = merges(&[("abc", 0)], 257, TieBreaking::RawTokenIds);
    assert_eq!(got, vec![pair("a", "b")]);
    // The word is merged where both parts are bytes, and no more after that.
    let got = merges(&[("abc", 0)], 258, TieBreaking::RawTokenIds);
    assert_eq!(got, vec![pair("a", "b"), pair("b", "c")]);
    let got = merges(&[("abcd", 0), ("ab", 3), ("abc", 2)], 259, TieBreaking::RawTokenIds);
    assert_eq!(got, vec![pair("a", "b"), pair("ab", "c"), pair("b", "c")]);
}
