use vstd::prelude::*;

use crate::error::TokenizerError;
use crate::merge::{
    bytes_to_pieces, lemma_expand_append, lemma_expand_leaves, lemma_expand_singleton,
    lemma_rounds_expand, lemma_rounds_len, leaf_pieces, run_merges, spec_encode_chunk,
};
use crate::vocab::{
    expand_code, expand_seq, is_composite, is_valid_code, valid_codes, vocab_wf, Vocab,
};

verus! {

/// The encoder's chunked run of the merge engine: the bytes are split into
/// chunks of `cs` bytes, each chunk is merged to its fixed point
/// independently, and the outputs are concatenated, so no merge ever spans
/// a chunk boundary.
pub open spec fn spec_encode_bytes(v: Seq<(u32, u32)>, b: Seq<u8>, cs: nat) -> Seq<u32>
    decreases b.len(),
    when cs >= 1
{
    if b.len() <= cs {
        spec_encode_chunk(v, leaf_pieces(b))
    } else {
        spec_encode_chunk(v, leaf_pieces(b.take(cs as int))) + spec_encode_bytes(
            v,
            b.skip(cs as int),
            cs,
        )
    }
}

/// Whatever the table and chunk size, encoding expands back to exactly the
/// input bytes, yields only valid codes, and never lengthens the sequence.
pub proof fn lemma_encode_bytes_props(v: Seq<(u32, u32)>, b: Seq<u8>, cs: nat)
    requires
        vocab_wf(v),
        cs >= 1,
    ensures
        expand_seq(v, spec_encode_bytes(v, b, cs)) == b,
        valid_codes(v, spec_encode_bytes(v, b, cs)),
        spec_encode_bytes(v, b, cs).len() <= b.len(),
    decreases b.len(),
{
    if b.len() <= cs {
        lemma_expand_leaves(v, b);
        lemma_rounds_expand(v, leaf_pieces(b), leaf_pieces(b).len());
        lemma_rounds_len(v, leaf_pieces(b), leaf_pieces(b).len());
    } else {
        let head = b.take(cs as int);
        let tail = b.skip(cs as int);
        let e1 = spec_encode_chunk(v, leaf_pieces(head));
        let e2 = spec_encode_bytes(v, tail, cs);
        lemma_expand_leaves(v, head);
        lemma_rounds_expand(v, leaf_pieces(head), leaf_pieces(head).len());
        lemma_rounds_len(v, leaf_pieces(head), leaf_pieces(head).len());
        lemma_encode_bytes_props(v, tail, cs);
        lemma_expand_append(v, e1, e2);
        assert(head + tail =~= b);
        assert(valid_codes(v, e1 + e2)) by {
            assert(forall|i: int|
                0 <= i < e1.len() ==> #[trigger] (e1 + e2)[i] == e1[i]);
            assert(forall|i: int|
                e1.len() <= i < e1.len() + e2.len() ==> #[trigger] (e1 + e2)[i] == e2[
                    i - e1.len()
                ]);
        }
    }
}

/// Encodes raw bytes: chunked leaf conversion followed by the merge engine
/// on each chunk.
pub fn encode_bytes_with(v: &Vocab, data: &[u8], cs: usize) -> (out: Vec<u32>)
    requires
        v.wf(),
        cs >= 1,
    ensures
        out@ == spec_encode_bytes(v@, data@, cs as nat),
{
    let n = data.len();
    let mut out: Vec<u32> = Vec::new();
    let mut pos: usize = 0;
    proof {
        assert(data@.skip(0) =~= data@);
        assert(out@ + spec_encode_bytes(v@, data@, cs as nat) =~= spec_encode_bytes(
            v@,
            data@,
            cs as nat,
        ));
    }
    while n - pos > cs
        invariant
            v.wf(),
            cs >= 1,
            n == data@.len(),
            0 <= pos <= n,
            out@ + spec_encode_bytes(v@, data@.skip(pos as int), cs as nat) == spec_encode_bytes(
                v@,
                data@,
                cs as nat,
            ),
        decreases n - pos,
    {
        let chunk = &data[pos..pos + cs];
        let pieces = bytes_to_pieces(chunk);
        let mut enc = run_merges(v, pieces);
        let ghost e1 = enc@;
        out.append(&mut enc);
        proof {
            let suf = data@.skip(pos as int);
            assert(suf.take(cs as int) =~= chunk@);
            assert(suf.skip(cs as int) =~= data@.skip(pos + cs));
            assert(spec_encode_bytes(v@, suf, cs as nat) == e1 + spec_encode_bytes(
                v@,
                data@.skip(pos + cs),
                cs as nat,
            ));
            assert((out@ + spec_encode_bytes(v@, data@.skip(pos + cs), cs as nat)) =~= (
            out@.subrange(0, out@.len() - e1.len()) + (e1 + spec_encode_bytes(
                v@,
                data@.skip(pos + cs),
                cs as nat,
            ))));
        }
        pos += cs;
    }
    let chunk = &data[pos..n];
    let pieces = bytes_to_pieces(chunk);
    let mut enc = run_merges(v, pieces);
    let ghost e1 = enc@;
    out.append(&mut enc);
    proof {
        let suf = data@.skip(pos as int);
        assert(suf =~= chunk@);
        assert(spec_encode_bytes(v@, suf, cs as nat) == e1);
    }
    out
}

/// Writes the expansion of one symbol after the bytes already in `out`.
fn push_expansion(v: &Vocab, c: u32, out: &mut Vec<u8>)
    requires
        v.wf(),
        is_valid_code(v@, c),
    ensures
        final(out)@ == old(out)@ + expand_code(v@, c),
    decreases c,
{
    if c < 256 {
        out.push(c as u8);
        proof {
            assert(old(out)@.push(c as u8) =~= old(out)@ + seq![c as u8]);
        }
    } else {
        let (l, r) = v.pair_of(c);
        proof {
            assert(is_valid_code(v@, l) && is_valid_code(v@, r)) by {
                assert(v@[c - 256].0 < 256 + (c - 256));
                assert(v@[c - 256].1 < 256 + (c - 256));
                assert(c - 256 < v@.len());
            }
        }
        push_expansion(v, l, out);
        push_expansion(v, r, out);
        proof {
            assert((old(out)@ + expand_code(v@, l)) + expand_code(v@, r) =~= old(out)@ + (
            expand_code(v@, l) + expand_code(v@, r)));
        }
    }
}

/// Decodes a symbol sequence back to raw bytes by expanding every code,
/// failing on the first composite code the table does not define.
pub fn decode_pieces(v: &Vocab, ids: &[u32]) -> (res: Result<Vec<u8>, TokenizerError>)
    requires
        v.wf(),
    ensures
        valid_codes(v@, ids@) ==> (res matches Ok(out) && out@ == expand_seq(v@, ids@)),
        !valid_codes(v@, ids@) ==> res == Err::<Vec<u8>, TokenizerError>(
            TokenizerError::UnknownSymbol,
        ),
{
    let n = ids.len();
    let mut out: Vec<u8> = Vec::new();
    let mut i: usize = 0;
    proof {
        assert(ids@.take(0) =~= Seq::<u32>::empty());
    }
    while i < n
        invariant
            v.wf(),
            n == ids@.len(),
            0 <= i <= n,
            forall|j: int| 0 <= j < i ==> is_valid_code(v@, #[trigger] ids@[j]),
            out@ == expand_seq(v@, ids@.take(i as int)),
        decreases n - i,
    {
        let c = ids[i];
        let composite_ok = c >= 256 && ((c - 256) as usize) < v.len();
        if !(c < 256 || composite_ok) {
            proof {
                assert(!is_valid_code(v@, ids@[i as int]));
            }
            return Err(TokenizerError::UnknownSymbol);
        }
        push_expansion(v, c, &mut out);
        proof {
            assert(ids@.take(i + 1) =~= ids@.take(i as int) + seq![c]);
            lemma_expand_append(v@, ids@.take(i as int), seq![c]);
            lemma_expand_singleton(v@, c);
        }
        i += 1;
    }
    proof {
        assert(ids@.take(n as int) =~= ids@);
    }
    Ok(out)
}

} // verus!
