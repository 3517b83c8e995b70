use toktokenizer::normalize::DefaultNormalizer;
use toktokenizer::tokenizer::BPETokenizer;
use toktokenizer::TokenizerError;

fn fresh() -> BPETokenizer<DefaultNormalizer> {
    BPETokenizer::new(DefaultNormalizer {})
}

#[test]
fn save_format_is_exact() {
    let mut tok = fresh();
    tok.add_special_token("Hi").unwrap();
    assert_eq!(tok.save_encoder(), b"{\"256\":[72,105]}".to_vec());
}

#[test]
fn save_empty_table() {
    let tok = fresh();
    assert_eq!(tok.save_encoder(), b"{}".to_vec());
}

#[test]
fn save_then_load_round_trip() {
    let mut tok = fresh();
    tok.train("abab ababab abab", 4).unwrap();
    let saved = tok.save_encoder();

    let mut other = fresh();
    other.load_encoder(&saved).unwrap();
    assert_eq!(other.encoder(), tok.encoder());
    assert_eq!(other.n_vocab(), tok.n_vocab());

    let text = "abab cd";
    assert_eq!(other.encode(text), tok.encode(text));
}

#[test]
fn load_is_order_independent() {
    let mut a = fresh();
    a.load_encoder(b"{\"256\":[97,97],\"257\":[256,98]}").unwrap();
    let mut b = fresh();
    b.load_encoder(b"{\"257\":[256,98],\"256\":[97,97]}").unwrap();
    assert_eq!(a.encoder(), b.encoder());
}

#[test]
fn load_empty_table() {
    let mut tok = fresh();
    tok.load_encoder(b"{}").unwrap();
    assert_eq!(tok.n_vocab(), 0);
}

#[test]
fn load_accepts_blanks_between_tokens() {
    // The documented shape, written with the usual spacing.
    let mut tok = fresh();
    tok.load_encoder(b"{\"256\": [72, 105], \"257\": [256, 33]}").unwrap();
    assert_eq!(tok.encoder(), vec![(256, 72, 105), (257, 256, 33)]);

    let mut spaced = fresh();
    spaced.load_encoder(b" {\n  \"256\" : [ 72 , 105 ]\n} \n").unwrap();
    assert_eq!(spaced.encoder(), vec![(256, 72, 105)]);

    let mut empty = fresh();
    empty.load_encoder(b"{ }").unwrap();
    assert_eq!(empty.n_vocab(), 0);
}

#[test]
fn load_rejects_malformed_tables() {
    let bad: [&[u8]; 9] = [
        b"not json",
        b"{",
        b"{\"2 56\":[97,98]}",
        b"{\"257\":[97,98]}",
        b"{\"256\":[97,98],\"256\":[97,99]}",
        b"{\"256\":[256,97]}",
        b"{\"0256\":[97,98]}",
        b"{}x",
        b"{\"256\":[97,98],\"257\":[97,98]}",
    ];
    for data in bad {
        let mut tok = fresh();
        assert_eq!(tok.load_encoder(data), Err(TokenizerError::VocabularyParseError));
        assert_eq!(tok.n_vocab(), 0);
    }
}

#[test]
fn failed_load_keeps_old_table() {
    let mut tok = fresh();
    tok.add_special_token("Hi").unwrap();
    assert_eq!(
        tok.load_encoder(b"{\"257\":[97,98]}"),
        Err(TokenizerError::VocabularyParseError)
    );
    assert_eq!(tok.encoder(), vec![(256, 72, 105)]);
}
