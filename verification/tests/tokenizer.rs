use toktokenizer::normalize::DefaultNormalizer;
use toktokenizer::tokenizer::BPETokenizer;
use toktokenizer::TokenizerError;

fn fresh() -> BPETokenizer<DefaultNormalizer> {
    BPETokenizer::new(DefaultNormalizer {})
}

#[test]
fn test_encode_decode() {
    let mut tok = fresh();
    let _ = tok.load_encoder(b"{\"256\":[105,115],\"257\":[101,120]}");

    let text = String::from("this is an example. \u{1F60E}");
    assert_eq!(text, tok.decode(&tok.encode(&text)).unwrap());
}

#[test]
fn test_compression() {
    let mut tok = fresh();
    let _ = tok.load_encoder(b"{\"256\":[105,115],\"257\":[101,120]}");

    let text = String::from("this is an example. \u{1F60E}");

    assert!(text.len() > tok.encode(&text).len());
}

#[test]
fn training_scenario_picks_most_frequent_pair() {
    // Corpus bytes `a a a b`: pair (97,97) counted twice beats (97,98).
    let mut tok = fresh();
    let pieces = tok.train("aaab", 1).unwrap();
    assert_eq!(pieces, vec![256, 97, 98]);
    assert_eq!(tok.n_vocab(), 1);
    assert_eq!(tok.encoder(), vec![(256, 97, 97)]);
}

#[test]
fn training_tie_break_is_lexicographic() {
    // "abcd": every pair occurs once; (97,98) is the smallest.
    let mut tok = fresh();
    let pieces = tok.train("abcd", 1).unwrap();
    assert_eq!(tok.encoder(), vec![(256, 97, 98)]);
    assert_eq!(pieces, vec![256, 99, 100]);
}

#[test]
fn incremental_training_counts_current_pieces() {
    // On a pre-loaded table the working sequence starts at the merge
    // engine's fixed point, so already-learned pairs are merged into
    // their codes and the count runs over the pieces as they stand.
    let mut tok = fresh();
    tok.train("aaaa", 1).unwrap();
    assert_eq!(tok.encoder(), vec![(256, 97, 97)]);
    let pieces = tok.train("aaaa", 2).unwrap();
    assert_eq!(tok.encoder(), vec![(256, 97, 97), (257, 256, 256)]);
    assert_eq!(pieces, vec![257]);

    let mut other = fresh();
    other.load_encoder(b"{\"256\":[97,97]}").unwrap();
    let pieces = other.train("aaab", 2).unwrap();
    assert_eq!(other.encoder(), vec![(256, 97, 97), (257, 97, 98)]);
    assert_eq!(pieces, vec![256, 257]);
}

#[test]
fn special_token_scenario() {
    // Empty vocabulary; "Hi" is [72, 105], so one entry is created.
    let mut tok = fresh();
    let code = tok.add_special_token("Hi").unwrap();
    assert_eq!(code, 256);
    assert_eq!(tok.n_vocab(), 1);
    assert_eq!(tok.encoder(), vec![(256, 72, 105)]);
}

#[test]
fn special_token_idempotent() {
    let mut tok = fresh();
    let first = tok.add_special_token("Hi").unwrap();
    let size = tok.n_vocab();
    let second = tok.add_special_token("Hi").unwrap();
    assert_eq!(first, second);
    assert_eq!(tok.n_vocab(), size);
}

#[test]
fn special_token_idempotent_long_literal() {
    let mut tok = fresh();
    tok.train("abcabc abcabc", 3).unwrap();
    let first = tok.add_special_token("Hello").unwrap();
    let size = tok.n_vocab();
    let second = tok.add_special_token("Hello").unwrap();
    assert_eq!(first, second);
    assert_eq!(tok.n_vocab(), size);
    assert_eq!(tok.encode("Hello"), vec![first]);
}

#[test]
fn special_tokens_batch() {
    let mut tok = fresh();
    let codes = tok.add_special_tokens(&vec![String::from("Hi"), String::from("Yo")]).unwrap();
    assert_eq!(codes, vec![256, 257]);
    assert_eq!(tok.n_vocab(), 2);
}

#[test]
fn special_token_empty_literal_fails() {
    let mut tok = fresh();
    assert_eq!(tok.add_special_token(""), Err(TokenizerError::InsufficientCorpus));
    assert_eq!(tok.n_vocab(), 0);
}

#[test]
fn decode_unknown_symbol() {
    // A vocabulary with entries 256..=260 cannot decode symbol 999.
    let mut tok = fresh();
    tok.load_encoder(
        b"{\"256\":[97,98],\"257\":[256,99],\"258\":[100,101],\"259\":[257,258],\"260\":[102,103]}",
    )
    .unwrap();
    assert_eq!(tok.n_vocab(), 5);
    assert_eq!(tok.decode(&[999]), Err(TokenizerError::UnknownSymbol));
}

#[test]
fn decode_invalid_text_encoding() {
    let tok = fresh();
    // Byte 200 is a lone continuation byte: valid symbol, invalid text.
    assert_eq!(tok.decode(&[200]), Err(TokenizerError::InvalidTextEncoding));
}

#[test]
fn chunk_boundary_pair_never_merges() {
    // The only learned pair (97,98) straddles the boundary of 2-byte
    // chunks in "aaba", so it must stay unmerged there.
    let mut tok = fresh();
    tok.load_encoder(b"{\"256\":[97,98]}").unwrap();
    tok.set_chunk_size(2);
    let chunked = tok.encode("aaba");
    assert_eq!(chunked, vec![97, 97, 98, 97]);
    assert!(!chunked.contains(&256));

    tok.set_chunk_size(4096);
    assert_eq!(tok.encode("aaba"), vec![97, 256, 97]);
}

#[test]
fn round_trip_across_chunks() {
    let mut tok = fresh();
    tok.load_encoder(b"{\"256\":[97,98]}").unwrap();
    tok.set_chunk_size(3);
    let text = String::from("abababababab");
    assert_eq!(text, tok.decode(&tok.encode(&text)).unwrap());
}

#[test]
fn round_trip_empty_and_multibyte() {
    let tok = fresh();
    assert_eq!(tok.encode(""), Vec::<u32>::new());
    assert_eq!(tok.decode(&[]).unwrap(), "");

    // The UTF-8 conversions really run: two bytes for one char.
    assert_eq!(tok.encode("\u{e9}"), vec![0xC3, 0xA9]);
    assert_eq!(tok.decode(&[0xC3, 0xA9]).unwrap(), "\u{e9}");
    assert_eq!(tok.decode(&[104, 105]).unwrap(), "hi");
}

#[test]
fn round_trip_bytes() {
    let mut tok = fresh();
    let _ = tok.train("abcabcabc", 2);
    let data: Vec<u8> = vec![97, 98, 99, 97, 98, 99, 0, 255];
    let ids = tok.encode_bytes(&data);
    assert!(ids.len() <= data.len());
    assert_eq!(tok.decode_bytes(&ids).unwrap(), data);
}

#[test]
fn train_target_must_exceed_current_size() {
    let mut tok = fresh();
    tok.train("aaab", 1).unwrap();
    assert_eq!(tok.train("aaab", 1), Err(TokenizerError::InvalidTrainingTarget));
    assert_eq!(tok.train("aaab", 0), Err(TokenizerError::InvalidTrainingTarget));
    assert_eq!(tok.n_vocab(), 1);
}

#[test]
fn train_insufficient_corpus() {
    let mut tok = fresh();
    assert_eq!(tok.train("", 1), Err(TokenizerError::InsufficientCorpus));
    assert_eq!(tok.train("a", 1), Err(TokenizerError::InsufficientCorpus));
    // "aa" yields one pair, not two: the second iteration starves, and
    // the failure leaves the table untouched.
    assert_eq!(tok.train("aa", 2), Err(TokenizerError::InsufficientCorpus));
    assert_eq!(tok.n_vocab(), 0);
}

#[test]
fn normalizer_collapses_whitespace() {
    let tok = fresh();
    assert_eq!(tok.preprocess("a  b"), "a b");
    assert_eq!(tok.preprocess("a \t b"), "a b");
    // A leading run keeps its first character like any other run.
    assert_eq!(tok.preprocess("\t\ta"), "\ta");
    assert_eq!(tok.preprocess("  a"), " a");
    assert_eq!(tok.preprocess(" \t a"), " a");
    assert_eq!(tok.preprocess("ab"), "ab");
    assert_eq!(tok.preprocess(""), "");
}

#[test]
fn encode_never_lengthens() {
    let mut tok = fresh();
    tok.train("the quick brown fox the quick brown fox", 10).unwrap();
    for text in ["", "the", "fox fox fox", "zzz", "the quick brown fox"] {
        assert!(tok.encode(text).len() <= text.len());
    }
}
