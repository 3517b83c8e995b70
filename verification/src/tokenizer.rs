use vstd::prelude::*;
use vstd::string::StringSliceAdditionalSpecFns;
use vstd::utf8::{decode_utf8, encode_utf8, valid_utf8};

use crate::codec::{decode_pieces, encode_bytes_with, lemma_encode_bytes_props, spec_encode_bytes};
use crate::error::TokenizerError;
use crate::merge::{
    bytes_to_pieces, leaf_pieces, lemma_expand_leaves, lemma_rounds_expand, lemma_rounds_len,
    run_merges, spec_encode_chunk,
};
use crate::normalize::Normalize;
use crate::persist::{load_vocab, save_vocab, spec_load, spec_vocab_json};
use crate::trainer::{
    boot_rounds, lemma_boot_rounds_grow, lemma_train_rounds_grow, spec_boot_rounds,
    spec_train_rounds, train_rounds,
};
use crate::vocab::{expand_seq, valid_codes, vocab_wf, Vocab, MAX_ENTRIES};

verus! {

/// The default number of bytes encoded as one independent chunk.
pub const DEFAULT_CHUNK_SIZE: usize = 16384;

/// Relies on `String::from_utf8`: it returns the string represented by the
/// given bytes exactly when they are a valid UTF-8 encoding, and UTF-8
/// decoding is a function of the bytes alone.
#[verifier::external_body]
fn string_from_utf8(bytes: Vec<u8>) -> (r: Option<String>)
    ensures
        r is Some <==> valid_utf8(bytes@),
        r matches Some(s) ==> s@ == decode_utf8(bytes@),
{
    String::from_utf8(bytes).ok()
}

/// What one `add_special_token` call does to the table: encode the literal
/// as a single chunk; if one symbol remains, return it and change nothing;
/// otherwise bootstrap new entries until one symbol remains.  `None` marks
/// the failure cases (an empty literal, or an encoding that cannot shrink
/// further because every fresh pair is exhausted).
pub open spec fn spec_special(v: Seq<(u32, u32)>, b: Seq<u8>) -> Option<(Seq<(u32, u32)>, u32)> {
    let s0 = spec_encode_chunk(v, leaf_pieces(b));
    if b.len() == 0 {
        None
    } else if s0.len() == 1 {
        Some((v, s0[0]))
    } else {
        match spec_boot_rounds(v, s0, s0.len() as nat) {
            None => None,
            Some((v2, s2)) => Some((v2, s2[0])),
        }
    }
}

/// A successful special-token call only appends entries, at most one per
/// literal byte beyond the first.
pub proof fn lemma_special_grow(v: Seq<(u32, u32)>, b: Seq<u8>)
    requires
        vocab_wf(v),
    ensures
        spec_special(v, b) matches Some((v2, c)) ==> v.is_prefix_of(v2) && v2.len() <= v.len()
            + b.len(),
{
    let s0 = spec_encode_chunk(v, leaf_pieces(b));
    lemma_rounds_len(v, leaf_pieces(b), leaf_pieces(b).len());
    lemma_boot_rounds_grow(v, s0, s0.len() as nat);
    assert(v.is_prefix_of(v)) by {
        assert(v.take(v.len() as int) =~= v);
    }
}

/// The total UTF-8 byte length of a list of literals.
pub open spec fn total_bytes(toks: Seq<Seq<char>>) -> nat
    decreases toks.len(),
{
    if toks.len() == 0 {
        0nat
    } else {
        encode_utf8(toks[0]).len() + total_bytes(toks.drop_first())
    }
}

/// What one `add_special_tokens` call does: each literal in order through
/// `spec_special`, failing as a whole when any one literal fails.
pub open spec fn spec_special_many(v: Seq<(u32, u32)>, toks: Seq<Seq<char>>) -> Option<
    (Seq<(u32, u32)>, Seq<u32>),
>
    decreases toks.len(),
{
    if toks.len() == 0 {
        Some((v, Seq::<u32>::empty()))
    } else {
        match spec_special(v, encode_utf8(toks[0])) {
            None => None,
            Some((v2, c)) => match spec_special_many(v2, toks.drop_first()) {
                None => None,
                Some((v3, cs)) => Some((v3, seq![c] + cs)),
            },
        }
    }
}

/// The byte-pair-encoding tokenizer: a pluggable normalizer, the shared
/// vocabulary table, and the encoder's chunk size.
///
/// All operations run to completion synchronously.  Encoding and decoding
/// only read the table; training, the special-token bootstrap and loading
/// mutate it, so a caller that shares one tokenizer across threads must
/// provide its own exclusive access around any mutating call.
pub struct BPETokenizer<T: Normalize> {
    /// The pluggable text-preprocessing capability.
    pub normalizer: T,
    /// The shared vocabulary table.
    pub vocab: Vocab,
    /// The number of bytes the encoder treats as one independent chunk.
    pub chunk_size: usize,
}

impl<T: Normalize> BPETokenizer<T> {
    /// The vocabulary table's merge entries, index `k` defining the
    /// composite code `256 + k`.
    pub open spec fn vocab_view(&self) -> Seq<(u32, u32)> {
        self.vocab@
    }

    /// The encoder's chunk size.
    pub open spec fn chunk_size_spec(&self) -> nat {
        self.chunk_size as nat
    }

    /// A well-formed tokenizer: a well-formed table and a positive chunk
    /// size.
    pub open spec fn wf(&self) -> bool {
        vocab_wf(self.vocab@) && self.chunk_size >= 1
    }

    /// A tokenizer with an empty vocabulary and the default chunk size.
    pub fn new(normalizer: T) -> (r: BPETokenizer<T>)
        ensures
            r.wf(),
            r.vocab_view() =~= Seq::<(u32, u32)>::empty(),
            r.normalizer == normalizer,
            r.chunk_size_spec() == DEFAULT_CHUNK_SIZE as nat,
    {
        BPETokenizer { normalizer, vocab: Vocab::new(), chunk_size: DEFAULT_CHUNK_SIZE }
    }

    /// Sets the number of bytes the encoder treats as one independent
    /// chunk.
    pub fn set_chunk_size(&mut self, chunk_size: usize)
        requires
            old(self).wf(),
            chunk_size >= 1,
        ensures
            final(self).wf(),
            final(self).vocab_view() == old(self).vocab_view(),
            final(self).normalizer == old(self).normalizer,
            final(self).chunk_size_spec() == chunk_size as nat,
    {
        self.chunk_size = chunk_size;
    }

    /// The number of merge entries the vocabulary holds.
    pub fn n_vocab(&self) -> (n: usize)
        ensures
            n == self.vocab_view().len(),
    {
        self.vocab.len()
    }

    /// The vocabulary as `(merged, left, right)` triples in code order.
    pub fn encoder(&self) -> (out: Vec<(u32, u32, u32)>)
        requires
            self.wf(),
        ensures
            out@.len() == self.vocab_view().len(),
            forall|k: int|
                0 <= k < out@.len() ==> #[trigger] out@[k] == (
                    (256 + k) as u32,
                    self.vocab_view()[k].0,
                    self.vocab_view()[k].1,
                ),
    {
        let n = self.vocab.len();
        let mut out: Vec<(u32, u32, u32)> = Vec::new();
        let mut k: usize = 0;
        while k < n
            invariant
                self.wf(),
                n == self.vocab_view().len(),
                0 <= k <= n,
                out@.len() == k,
                forall|j: int|
                    0 <= j < k ==> #[trigger] out@[j] == (
                        (256 + j) as u32,
                        self.vocab_view()[j].0,
                        self.vocab_view()[j].1,
                    ),
            decreases n - k,
        {
            let p = self.vocab.pair_of((256 + k) as u32);
            out.push(((256 + k) as u32, p.0, p.1));
            k += 1;
        }
        out
    }

    /// Applies the pluggable normalizer to a text.
    pub fn preprocess(&self, text: &str) -> (r: String)
        ensures
            r@ == self.normalizer.norm_spec(text@),
    {
        self.normalizer.normalize(text)
    }

    /// Encodes raw bytes into symbol codes, chunk by chunk.  The output
    /// expands back to exactly the input, holds only valid codes, and is
    /// never longer than the input.
    pub fn encode_bytes(&self, data: &[u8]) -> (out: Vec<u32>)
        requires
            self.wf(),
        ensures
            out@ == spec_encode_bytes(self.vocab_view(), data@, self.chunk_size_spec()),
            expand_seq(self.vocab_view(), out@) == data@,
            valid_codes(self.vocab_view(), out@),
            out@.len() <= data@.len(),
    {
        proof {
            lemma_encode_bytes_props(self.vocab@, data@, self.chunk_size as nat);
        }
        encode_bytes_with(&self.vocab, data, self.chunk_size)
    }

    /// Encodes a text: its UTF-8 bytes, chunk by chunk.  No normalization
    /// is applied here — `preprocess` is the separate, explicit step — so
    /// decoding an encoding gives back the text exactly as it was passed.
    pub fn encode(&self, text: &str) -> (out: Vec<u32>)
        requires
            self.wf(),
        ensures
            out@ == spec_encode_bytes(
                self.vocab_view(),
                encode_utf8(text@),
                self.chunk_size_spec(),
            ),
            expand_seq(self.vocab_view(), out@) == encode_utf8(text@),
            valid_codes(self.vocab_view(), out@),
            out@.len() <= encode_utf8(text@).len(),
    {
        let bytes = text.as_bytes();
        self.encode_bytes(bytes)
    }

    /// Decodes symbol codes back to raw bytes, failing on a composite code
    /// the vocabulary does not define.
    pub fn decode_bytes(&self, input_ids: &[u32]) -> (res: Result<Vec<u8>, TokenizerError>)
        requires
            self.wf(),
        ensures
            valid_codes(self.vocab_view(), input_ids@) ==> (res matches Ok(out) && out@
                == expand_seq(self.vocab_view(), input_ids@)),
            !valid_codes(self.vocab_view(), input_ids@) ==> res == Err::<Vec<u8>, TokenizerError>(
                TokenizerError::UnknownSymbol,
            ),
    {
        decode_pieces(&self.vocab, input_ids)
    }

    /// Decodes symbol codes back to text: every code is expanded to its
    /// bytes and the bytes are read as UTF-8.
    pub fn decode(&self, input_ids: &[u32]) -> (res: Result<String, TokenizerError>)
        requires
            self.wf(),
        ensures
            ({
                let v = self.vocab_view();
                let bytes = expand_seq(v, input_ids@);
                &&& !valid_codes(v, input_ids@) ==> res == Err::<String, TokenizerError>(
                    TokenizerError::UnknownSymbol,
                )
                &&& valid_codes(v, input_ids@) && !valid_utf8(bytes) ==> res == Err::<
                    String,
                    TokenizerError,
                >(TokenizerError::InvalidTextEncoding)
                &&& valid_codes(v, input_ids@) && valid_utf8(bytes) ==> (res matches Ok(s) && s@
                    == decode_utf8(bytes))
            }),
    {
        match decode_pieces(&self.vocab, input_ids) {
            Err(_) => Err(TokenizerError::UnknownSymbol),
            Ok(bytes) => match string_from_utf8(bytes) {
                None => Err(TokenizerError::InvalidTextEncoding),
                Some(s) => Ok(s),
            },
        }
    }

    /// Serializes the vocabulary into its one persisted byte shape: the
    /// entries in code order, each composite code a quoted decimal key
    /// mapped to the array of its pair.
    pub fn save_encoder(&self) -> (out: Vec<u8>)
        requires
            self.wf(),
        ensures
            out@ == spec_vocab_json(self.vocab_view()),
    {
        save_vocab(&self.vocab)
    }

    /// Replaces the vocabulary with one read from persisted bytes, in any
    /// key order and with blanks allowed between the tokens; a malformed
    /// table is refused and nothing changes.
    pub fn load_encoder(&mut self, data: &[u8]) -> (res: Result<(), TokenizerError>)
        requires
            old(self).wf(),
        ensures
            final(self).wf(),
            final(self).normalizer == old(self).normalizer,
            final(self).chunk_size_spec() == old(self).chunk_size_spec(),
            match spec_load(data@) {
                Some(v) => res is Ok && final(self).vocab_view() == v,
                None => res == Err::<(), TokenizerError>(TokenizerError::VocabularyParseError)
                    && final(self).vocab_view() == old(self).vocab_view(),
            },
    {
        match load_vocab(data) {
            Ok(voc) => {
                self.vocab = voc;
                Ok(())
            },
            Err(e) => Err(e),
        }
    }

    /// Learns merges from a corpus until the vocabulary reaches the target
    /// size.  The piece sequence starts at the merge-engine fixed point of
    /// the corpus bytes under the current table (the bytes themselves when
    /// the table is empty), so no pair already learned stands in it; then
    /// exactly `vocab_size - n_vocab()` iterations run, each creating one
    /// entry for the most frequent adjacent pair (ties broken toward the
    /// lexicographically smallest) and merging it across the whole piece
    /// sequence.  Starting at the fixed point keeps every iteration at one
    /// (`laws::lemma_train_step_fixed`), where the selection is exactly
    /// the most-frequent-pair rule (`trainer::lemma_pick_most_frequent`).
    /// A failure leaves the table exactly as it was.
    pub fn train(&mut self, text: &str, vocab_size: usize) -> (res: Result<
        Vec<u32>,
        TokenizerError,
    >)
        requires
            old(self).wf(),
            vocab_size <= MAX_ENTRIES,
        ensures
            final(self).wf(),
            final(self).normalizer == old(self).normalizer,
            final(self).chunk_size_spec() == old(self).chunk_size_spec(),
            old(self).vocab_view().is_prefix_of(final(self).vocab_view()),
            vocab_size <= old(self).vocab_view().len() ==> res == Err::<Vec<u32>, TokenizerError>(
                TokenizerError::InvalidTrainingTarget,
            ) && final(self).vocab_view() == old(self).vocab_view(),
            vocab_size > old(self).vocab_view().len() ==> match spec_train_rounds(
                old(self).vocab_view(),
                spec_encode_chunk(old(self).vocab_view(), leaf_pieces(encode_utf8(text@))),
                (vocab_size - old(self).vocab_view().len()) as nat,
            ) {
                Some((v2, s2)) => (res matches Ok(out) && out@ == s2) && final(self).vocab_view()
                    =~= v2,
                None => res == Err::<Vec<u32>, TokenizerError>(TokenizerError::InsufficientCorpus)
                    && final(self).vocab_view() == old(self).vocab_view(),
            },
    {
        let cur = self.vocab.len();
        if vocab_size <= cur {
            proof {
                assert(self.vocab@.take(self.vocab@.len() as int) =~= self.vocab@);
            }
            return Err(TokenizerError::InvalidTrainingTarget);
        }
        let k = vocab_size - cur;
        let bytes = text.as_bytes();
        let leaves = bytes_to_pieces(bytes);
        proof {
            lemma_expand_leaves(self.vocab@, bytes@);
            lemma_rounds_expand(self.vocab@, leaf_pieces(bytes@), leaf_pieces(bytes@).len());
        }
        let pieces = run_merges(&self.vocab, leaves);
        let res = train_rounds(&mut self.vocab, pieces, k);
        proof {
            let start = spec_encode_chunk(old(self).vocab@, leaf_pieces(encode_utf8(text@)));
            lemma_train_rounds_grow(old(self).vocab@, start, k as nat);
            if spec_train_rounds(old(self).vocab@, start, k as nat) is None {
                assert(self.vocab@.take(self.vocab@.len() as int) =~= self.vocab@);
            }
        }
        res
    }

    /// Forces the literal to have a single dedicated symbol code: returns
    /// the code the literal already encodes to, or bootstraps new entries
    /// (shared with every later encode) until one remains.  A failure
    /// leaves the table exactly as it was.
    pub fn add_special_token(&mut self, token: &str) -> (res: Result<u32, TokenizerError>)
        requires
            old(self).wf(),
            old(self).vocab_view().len() + encode_utf8(token@).len() <= MAX_ENTRIES,
        ensures
            final(self).wf(),
            final(self).normalizer == old(self).normalizer,
            final(self).chunk_size_spec() == old(self).chunk_size_spec(),
            old(self).vocab_view().is_prefix_of(final(self).vocab_view()),
            match spec_special(old(self).vocab_view(), encode_utf8(token@)) {
                Some((v2, c)) => (res matches Ok(code) && code == c) && final(self).vocab_view()
                    =~= v2,
                None => res == Err::<u32, TokenizerError>(TokenizerError::InsufficientCorpus)
                    && final(self).vocab_view() == old(self).vocab_view(),
            },
    {
        let bytes = token.as_bytes();
        proof {
            assert(self.vocab@.take(self.vocab@.len() as int) =~= self.vocab@);
        }
        if bytes.len() == 0 {
            return Err(TokenizerError::InsufficientCorpus);
        }
        let pieces = bytes_to_pieces(bytes);
        proof {
            lemma_expand_leaves(self.vocab@, bytes@);
            lemma_rounds_expand(self.vocab@, leaf_pieces(bytes@), leaf_pieces(bytes@).len());
            lemma_rounds_len(self.vocab@, leaf_pieces(bytes@), leaf_pieces(bytes@).len());
        }
        let s0 = run_merges(&self.vocab, pieces);
        if s0.len() == 1 {
            return Ok(s0[0]);
        }
        let r = boot_rounds(&mut self.vocab, s0);
        proof {
            lemma_special_grow(old(self).vocab@, bytes@);
        }
        match r {
            Ok(out) => Ok(out[0]),
            Err(e) => Err(e),
        }
    }

    /// Forces each literal of the list in order; on the first failure the
    /// table is restored and nothing is reported created.
    pub fn add_special_tokens(&mut self, tokens: &Vec<String>) -> (res: Result<
        Vec<u32>,
        TokenizerError,
    >)
        requires
            old(self).wf(),
            old(self).vocab_view().len() + total_bytes(tokens.deep_view()) <= MAX_ENTRIES,
        ensures
            final(self).wf(),
            final(self).normalizer == old(self).normalizer,
            final(self).chunk_size_spec() == old(self).chunk_size_spec(),
            old(self).vocab_view().is_prefix_of(final(self).vocab_view()),
            match spec_special_many(old(self).vocab_view(), tokens.deep_view()) {
                Some((v3, cs)) => (res matches Ok(out) && out@ == cs) && final(self).vocab_view()
                    =~= v3,
                None => res == Err::<Vec<u32>, TokenizerError>(TokenizerError::InsufficientCorpus)
                    && final(self).vocab_view() == old(self).vocab_view(),
            },
    {
        let ghost v0 = self.vocab@;
        let ghost toks = tokens.deep_view();
        let orig_len = self.vocab.len();
        let n = tokens.len();
        let mut out: Vec<u32> = Vec::new();
        let mut t: usize = 0;
        proof {
            assert(toks.skip(0) =~= toks);
            assert(self.vocab@.take(orig_len as int) =~= v0);
        }
        while t < n
            invariant
                self.wf(),
                n == tokens@.len(),
                0 <= t <= n,
                toks == tokens.deep_view(),
                v0 == old(self).vocab@,
                self.normalizer == old(self).normalizer,
                self.chunk_size_spec() == old(self).chunk_size_spec(),
                orig_len == v0.len(),
                self.vocab@.len() >= orig_len,
                self.vocab@.take(orig_len as int) =~= v0,
                self.vocab@.len() + total_bytes(toks.skip(t as int)) <= MAX_ENTRIES,
                match spec_special_many(self.vocab@, toks.skip(t as int)) {
                    Some((v3, cs)) => spec_special_many(v0, toks) == Some((v3, out@ + cs)),
                    None => spec_special_many(v0, toks) is None,
                },
            decreases n - t,
        {
            let ghost pre = self.vocab@;
            proof {
                let suf = toks.skip(t as int);
                assert(suf[0] == toks[t as int]);
                assert(toks[t as int] == tokens@[t as int]@);
                assert(suf.drop_first() =~= toks.skip(t + 1));
            }
            let r = self.add_special_token(tokens[t].as_str());
            match r {
                Err(_) => {
                    proof {
                        assert(spec_special_many(pre, toks.skip(t as int)) is None);
                    }
                    self.vocab.truncate_entries(orig_len);
                    return Err(TokenizerError::InsufficientCorpus);
                },
                Ok(c) => {
                    proof {
                        lemma_special_grow(pre, encode_utf8(toks[t as int]));
                        let suf = toks.skip(t as int);
                        if spec_special_many(self.vocab@, toks.skip(t + 1)) is Some {
                            let (v3, cs) = spec_special_many(self.vocab@, toks.skip(t + 1))->Some_0;
                            assert(out@.push(c) + cs =~= out@ + (seq![c] + cs));
                        }
                        assert(self.vocab@.take(orig_len as int) =~= pre.take(orig_len as int));
                    }
                    out.push(c);
                    t += 1;
                },
            }
        }
        proof {
            assert(toks.skip(n as int) =~= Seq::<Seq<char>>::empty());
            assert(out@ + Seq::<u32>::empty() =~= out@);
        }
        Ok(out)
    }
}

} // verus!
