use vstd::prelude::*;
use vstd::utf8::{decode_utf8, encode_utf8, encode_utf8_decode_utf8, encode_utf8_valid_utf8,
    valid_utf8};

use crate::codec::{lemma_encode_bytes_props, spec_encode_bytes};
use crate::merge::{
    leaf_pieces, lemma_expand_leaves, lemma_merge_len, lemma_merge_no_occurrence,
    lemma_merge_windows, lemma_min_none_windows, lemma_min_rank_extend, lemma_min_rank_le,
    lemma_min_rank_some, lemma_rounds_expand, lemma_rounds_fixed, lemma_rounds_fuel,
    lemma_rounds_len, occurs, pair_at, spec_encode_chunk, spec_merge, spec_min_rank, spec_rounds,
};
use crate::tokenizer::spec_special;
use crate::trainer::{
    lemma_pick_some, lemma_train_step_wf, spec_boot_rounds, spec_pick, spec_train_step,
};
use crate::vocab::{
    expand_seq, has_pair, is_composite, is_valid_code, lemma_lookup_at_index, lemma_wf_prefix,
    lookup_spec, valid_codes, vocab_wf, MAX_ENTRIES,
};

verus! {

/// Round trip: whatever text is encoded, under any well-formed vocabulary
/// and any chunk size, the symbols it yields are all known, their expansion
/// is a valid text encoding, and decoding them gives back exactly that
/// text.  Together with the contracts of `encode` and `decode` this says
/// `decode(encode(text))` returns `Ok(text)`.
pub proof fn lemma_round_trip(v: Seq<(u32, u32)>, text: Seq<char>, cs: nat)
    requires
        vocab_wf(v),
        cs >= 1,
    ensures
        ({
            let es = spec_encode_bytes(v, encode_utf8(text), cs);
            &&& valid_codes(v, es)
            &&& valid_utf8(expand_seq(v, es))
            &&& decode_utf8(expand_seq(v, es)) == text
            &&& es.len() <= encode_utf8(text).len()
        }),
{
    lemma_encode_bytes_props(v, encode_utf8(text), cs);
    encode_utf8_valid_utf8(text);
    encode_utf8_decode_utf8(text);
}

/// Extending the table does not disturb the merges already learned: the
/// merge engine under the extended table factors through the old table's
/// fixed point, because the engine prefers smaller codes and every new
/// code is larger than every old one.
pub proof fn lemma_chunk_extend(v: Seq<(u32, u32)>, v2: Seq<(u32, u32)>, s: Seq<u32>)
    requires
        vocab_wf(v),
        vocab_wf(v2),
        v.is_prefix_of(v2),
    ensures
        spec_encode_chunk(v2, s) == spec_encode_chunk(v2, spec_encode_chunk(v, s)),
    decreases s.len(),
{
    match spec_min_rank(v, s) {
        None => {
            assert(spec_encode_chunk(v, s) == s);
        },
        Some(m) => {
            lemma_min_rank_extend(v, v2, s, 0);
            lemma_min_rank_some(v, s, 0);
            let l = v[m - 256].0;
            let r = v[m - 256].1;
            assert(v2[m - 256] == v[m - 256]) by {
                assert(v2.take(v.len() as int) =~= v);
            }
            let s1 = spec_merge(s, l, r, m);
            assert(occurs(s, l, r));
            lemma_merge_len(s, l, r, m);
            assert(s.len() >= 2) by {
                let j = choose|j: int| pair_at(s, j, l, r);
            }
            assert(spec_encode_chunk(v, s) == spec_rounds(v, s1, (s.len() - 1) as nat));
            lemma_rounds_fuel(v, s1, (s.len() - 1) as nat, s1.len() as nat);
            assert(spec_encode_chunk(v2, s) == spec_rounds(v2, s1, (s.len() - 1) as nat));
            lemma_rounds_fuel(v2, s1, (s.len() - 1) as nat, s1.len() as nat);
            lemma_chunk_extend(v, v2, s1);
        },
    }
}

/// A training step taken at a merge-engine fixed point lands at a fixed
/// point of the grown table, so the most-frequent-pair rule governs every
/// training iteration in turn: the merged pair is eliminated by its own
/// pass, the surviving pairs were never in the table, and the pairs the
/// pass creates contain the new code, which no entry's components can
/// reach.
pub proof fn lemma_train_step_fixed(v: Seq<(u32, u32)>, s: Seq<u32>)
    requires
        vocab_wf(v),
        valid_codes(v, s),
        v.len() < MAX_ENTRIES,
        spec_min_rank(v, s) is None,
        spec_train_step(v, s) is Some,
    ensures
        ({
            let (vm, sm) = spec_train_step(v, s)->Some_0;
            spec_min_rank(vm, sm) is None
        }),
{
    let p = spec_pick(v, s)->Some_0;
    let m = (256 + v.len()) as u32;
    let vm = v.push(p);
    let sm = spec_merge(s, p.0, p.1, m);
    lemma_train_step_wf(v, s);
    lemma_pick_some(v, s, 0);
    assert(occurs(s, p.0, p.1));
    let j0 = choose|j0: int| pair_at(s, j0, p.0, p.1);
    assert(is_valid_code(v, s[j0]) && is_valid_code(v, s[j0 + 1]));
    assert(p.0 < m && p.1 < m);
    lemma_merge_no_occurrence(s, p.0, p.1, m);
    lemma_min_none_windows(v, s, 0);
    assert forall|j: int| 0 <= j && j + 1 < sm.len() implies #[trigger] lookup_spec(
        vm,
        sm[j],
        sm[j + 1],
    ) is None by {
        let a = sm[j];
        let b = sm[j + 1];
        assert(pair_at(sm, j, a, b));
        assert(occurs(sm, a, b));
        lemma_merge_windows(s, p.0, p.1, m, a, b);
        if lookup_spec(vm, a, b) is Some {
            let k = choose|k: int| 0 <= k < vm.len() && vm[k] == (a, b);
            assert(vm[k].0 < 256 + k && vm[k].1 < 256 + k);
            assert(a != m && b != m);
            assert(occurs(s, a, b));
            let j2 = choose|j2: int| pair_at(s, j2, a, b);
            assert(lookup_spec(v, s[j2], s[j2 + 1]) is None);
            if k < v.len() {
                assert(v[k] == (a, b));
                assert(has_pair(v, a, b));
                assert(false);
            }
            assert(vm[k] == p);
            assert(!occurs(sm, p.0, p.1));
            assert(false);
        }
    }
    assert(spec_min_rank(vm, sm) is None) by {
        if spec_min_rank(vm, sm) is Some {
            lemma_min_rank_some(vm, sm, 0);
            let mm = spec_min_rank(vm, sm)->Some_0;
            let jj = choose|jj: int|
                0 <= jj && #[trigger] pair_at(sm, jj, vm[mm - 256].0, vm[mm - 256].1);
            assert(lookup_spec(vm, sm[jj], sm[jj + 1]) is None);
        }
    }
}

/// The bootstrap replays through the merge engine: the entries it creates
/// make the engine, run afresh on the same piece sequence, take exactly
/// the bootstrap's steps and stop at its single final symbol.
pub proof fn lemma_boot_replay(v: Seq<(u32, u32)>, s: Seq<u32>, fuel: nat)
    requires
        vocab_wf(v),
        valid_codes(v, s),
        s.len() >= 1,
        v.len() + s.len() <= MAX_ENTRIES + 1,
        spec_min_rank(v, s) is None,
        spec_boot_rounds(v, s, fuel) is Some,
    ensures
        ({
            let (v2, s2) = spec_boot_rounds(v, s, fuel)->Some_0;
            &&& vocab_wf(v2)
            &&& v.is_prefix_of(v2)
            &&& s2.len() == 1
            &&& spec_encode_chunk(v2, s) == s2
        }),
    decreases fuel,
{
    if s.len() <= 1 {
        assert(v.is_prefix_of(v)) by {
            assert(v.take(v.len() as int) =~= v);
        }
        assert(spec_encode_chunk(v, s) == s);
    } else {
        assert(fuel != 0);
        let p = spec_pick(v, s)->Some_0;
        let m = (256 + v.len()) as u32;
        let vm = v.push(p);
        let sm = spec_merge(s, p.0, p.1, m);
        assert(spec_train_step(v, s) == Some((vm, sm)));
        lemma_train_step_wf(v, s);
        lemma_pick_some(v, s, 0);
        assert(occurs(s, p.0, p.1));
        lemma_merge_len(s, p.0, p.1, m);
        let j0 = choose|j0: int| pair_at(s, j0, p.0, p.1);
        assert(is_valid_code(v, s[j0]) && is_valid_code(v, s[j0 + 1]));
        assert(p.0 < m && p.1 < m);
        lemma_train_step_fixed(v, s);
        assert(spec_min_rank(vm, sm) is None);
        lemma_min_none_windows(v, s, 0);

        lemma_boot_replay(vm, sm, (fuel - 1) as nat);
        let (v2, s2) = spec_boot_rounds(vm, sm, (fuel - 1) as nat)->Some_0;
        assert(v.is_prefix_of(vm)) by {
            assert(vm.take(v.len() as int) =~= v);
        }
        assert(v.is_prefix_of(v2)) by {
            assert(v2.take(vm.len() as int) =~= vm);
            assert(v2.take(v.len() as int) =~= vm.take(v.len() as int));
        }

        // Run afresh, the engine's next merge is exactly the bootstrap's:
        // the new pair is available under the smallest new code, and
        // nothing smaller is available at all.
        assert(v2[v.len() as int] == p) by {
            assert(vm =~= v2.subrange(0, vm.len() as int));
            assert(v2.subrange(0, vm.len() as int)[v.len() as int] == v2[v.len() as int]);
            assert(vm[v.len() as int] == p);
        }
        lemma_lookup_at_index(v2, v.len() as int);
        assert(lookup_spec(v2, p.0, p.1) == Some(m));
        lemma_min_rank_le(v2, s, 0, j0, m);
        let c = spec_min_rank(v2, s)->Some_0;
        lemma_min_rank_some(v2, s, 0);
        if c < m {
            assert(is_composite(v2, c));
            assert(c - 256 < v.len());
            assert(v2[c - 256] == v[c - 256]) by {
                assert(v2.take(v.len() as int) =~= v);
            }
            let w = v2[c - 256];
            let jc = choose|jc: int| 0 <= jc && #[trigger] pair_at(s, jc, w.0, w.1);
            assert(lookup_spec(v, s[jc], s[jc + 1]) is None);
            lemma_lookup_at_index(v, c - 256);
            assert(false);
        }
        assert(c == m);
        assert(v2[m - 256] == p);
        assert(spec_encode_chunk(v2, s) == spec_rounds(v2, sm, (s.len() - 1) as nat));
        lemma_rounds_fuel(v2, sm, (s.len() - 1) as nat, sm.len() as nat);
    }
}

/// Special-token idempotence: once `add_special_token` has given a literal
/// its dedicated code, calling it again with the same literal returns the
/// same code and leaves the vocabulary exactly as it was.
pub proof fn lemma_special_token_idempotent_general(v: Seq<(u32, u32)>, b: Seq<u8>)
    requires
        vocab_wf(v),
        v.len() + b.len() <= MAX_ENTRIES,
        spec_special(v, b) is Some,
    ensures
        ({
            let (v2, c) = spec_special(v, b)->Some_0;
            &&& vocab_wf(v2)
            &&& spec_special(v2, b) == Some((v2, c))
        }),
{
    assert(b.len() >= 1);
    let leaf = leaf_pieces(b);
    lemma_expand_leaves(v, b);
    let s0 = spec_encode_chunk(v, leaf);
    lemma_rounds_expand(v, leaf, leaf.len());
    lemma_rounds_len(v, leaf, leaf.len());
    lemma_rounds_fixed(v, leaf, leaf.len());
    if s0.len() == 1 {
    } else {
        let (v2, c) = spec_special(v, b)->Some_0;
        assert(spec_boot_rounds(v, s0, s0.len() as nat) is Some);
        lemma_boot_replay(v, s0, s0.len() as nat);
        let (v2b, s2) = spec_boot_rounds(v, s0, s0.len() as nat)->Some_0;
        assert(v2 == v2b && c == s2[0]);
        lemma_wf_prefix(v, v2);
        lemma_chunk_extend(v, v2, leaf);
        assert(spec_encode_chunk(v2, leaf) == spec_encode_chunk(v2, s0));
        assert(spec_encode_chunk(v2, leaf) == s2);
        assert(spec_encode_chunk(v2, leaf).len() == 1);
        assert(spec_encode_chunk(v2, leaf)[0] == c);
    }
}

} // verus!
