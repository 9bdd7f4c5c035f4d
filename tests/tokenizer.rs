use llama2_rs::bpe::BpeTokenizer;
use llama2_rs::prefix::{decode_piece, LongestPrefix, BOS, EOS};

fn vocab(pieces: &[&str]) -> LongestPrefix {
    LongestPrefix::new(pieces.iter().map(|p| p.as_bytes().to_vec()).collect())
}

fn sample() -> LongestPrefix {
    // ids are positions: 3 is the space piece
    vocab(&["<unk>", "<s>", "</s>", " ", "a", "ab", "abc", "b", " hi", "<0x41>"])
}

#[test]
fn longest_piece_wins() {
    let t = sample();
    assert_eq!(t.encode("abcb", true, true), Some(vec![BOS, 3, 6, 7, EOS]));
    assert_eq!(t.encode("abab", false, false), Some(vec![3, 5, 5]));
    assert_eq!(t.encode("aab", false, false), Some(vec![3, 4, 5]));
}

#[test]
fn byte_fallback_per_character() {
    let t = sample();
    assert_eq!(t.encode("\u{e9}b", false, false), Some(vec![3, 0xC3 + 3, 0xA9 + 3, 7]));
    assert_eq!(t.encode("z", false, true), Some(vec![3, b'z' as u32 + 3, EOS]));
}

#[test]
fn empty_text_has_no_space_piece() {
    let t = sample();
    assert_eq!(t.encode("", true, true), Some(vec![BOS, EOS]));
    assert_eq!(t.encode("", false, false), Some(vec![]));
}

#[test]
fn missing_space_piece_is_refused() {
    let t = vocab(&["<unk>", "<s>", "</s>", "a"]);
    assert_eq!(t.encode("a", true, false), None);
    assert_eq!(t.encode("", true, false), Some(vec![BOS]));
}

#[test]
fn repeated_piece_keeps_last_id() {
    let t = vocab(&["<unk>", "<s>", "</s>", " ", "x", "x"]);
    assert_eq!(t.encode("xx", false, false), Some(vec![3, 5, 5]));
    assert_eq!(t.max_piece_len, 5);
}

#[test]
fn decode_pieces() {
    let t = sample();
    assert_eq!(t.decode(BOS, 8), b"hi");
    assert_eq!(t.decode(4, 8), b" hi");
    assert_eq!(t.decode(4, 9), b"A");
    assert_eq!(t.decode(BOS, 6), b"abc");
    assert_eq!(decode_piece(5, b"<0xff>"), vec![0xff]);
    assert_eq!(decode_piece(5, b"<0xg1>"), b"<0xg1>");
    assert_eq!(decode_piece(BOS, b" "), b"");
}

fn bpe_sample() -> BpeTokenizer {
    let words = ["<unk>", "<s>", "</s>", " ", "a", "b", "ab", "ba", "aba", "c"];
    let scores = [0, 0, 0, 0, 0, 0, 5, 3, 10, 0];
    BpeTokenizer::new(words.iter().map(|w| w.as_bytes().to_vec()).collect(), scores.to_vec(), 3)
}

#[test]
fn bpe_merges_best_pair_first() {
    let t = bpe_sample();
    assert_eq!(t.encode("abab", false, false), Some(vec![3, 8, 5]));
    assert_eq!(t.encode("abab", true, true), Some(vec![BOS, 3, 8, 5, EOS]));
    assert_eq!(t.encode("ba", false, false), Some(vec![3, 7]));
    assert_eq!(t.max_token_len(), 3);
}

#[test]
fn bpe_first_of_equal_scores_wins() {
    let words = ["<unk>", "<s>", "</s>", " ", "a", "b", "ab", "bb"];
    let scores = [0, 0, 0, 0, 0, 0, 4, 4];
    let t = BpeTokenizer::new(words.iter().map(|w| w.as_bytes().to_vec()).collect(), scores.to_vec(), 2);
    // "ab" and "bb" tie; "ab" comes first
    assert_eq!(t.encode("abb", false, false), Some(vec![3, 6, 5]));
}

#[test]
fn bpe_characters_without_piece_fall_back_to_bytes() {
    let t = bpe_sample();
    assert_eq!(t.encode("c\u{e9}", false, false), Some(vec![3, 9, 0xC3 + 3, 0xA9 + 3]));
    assert_eq!(t.encode("", true, false), Some(vec![BOS]));
    assert_eq!(t.decode(BOS, 3), b"");
    assert_eq!(t.decode(5, 8), b"aba");
}
