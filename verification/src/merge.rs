use vstd::prelude::*;

use crate::vocab::{
    expand_code, expand_seq, is_composite, is_valid_code, lemma_lookup_prefix, lemma_lookup_some,
    lemma_wf_prefix, lookup_spec, pair_code, valid_codes, vocab_wf, Vocab,
};

verus! {

/// Whether the adjacent pair `(l, r)` stands at position `i` of `s`.
pub open spec fn pair_at(s: Seq<u32>, i: int, l: u32, r: u32) -> bool {
    0 <= i && i + 1 < s.len() && s[i] == l && s[i + 1] == r
}

/// Whether the adjacent pair `(l, r)` occurs anywhere in `s`.
pub open spec fn occurs(s: Seq<u32>, l: u32, r: u32) -> bool {
    exists|i: int| pair_at(s, i, l, r)
}

/// One left-to-right pass that replaces every non-overlapping occurrence of
/// the pair `(l, r)` with the code `m`: after a replacement the consumed
/// element cannot start another one.
pub open spec fn spec_merge(s: Seq<u32>, l: u32, r: u32, m: u32) -> Seq<u32>
    decreases s.len(),
{
    if s.len() < 2 {
        s
    } else if s[0] == l && s[1] == r {
        seq![m] + spec_merge(s.skip(2), l, r, m)
    } else {
        seq![s[0]] + spec_merge(s.drop_first(), l, r, m)
    }
}

/// A merge pass never lengthens the sequence, keeps it non-empty, and
/// strictly shortens it when the pair occurs.
pub proof fn lemma_merge_len(s: Seq<u32>, l: u32, r: u32, m: u32)
    ensures
        spec_merge(s, l, r, m).len() <= s.len(),
        s.len() >= 1 ==> spec_merge(s, l, r, m).len() >= 1,
        occurs(s, l, r) ==> spec_merge(s, l, r, m).len() < s.len(),
    decreases s.len(),
{
    if s.len() < 2 {
        assert(!occurs(s, l, r)) by {
            if occurs(s, l, r) {
                let i = choose|i: int| pair_at(s, i, l, r);
                assert(i + 1 < s.len());
            }
        }
    } else if s[0] == l && s[1] == r {
        lemma_merge_len(s.skip(2), l, r, m);
    } else {
        lemma_merge_len(s.drop_first(), l, r, m);
        if occurs(s, l, r) {
            let i = choose|i: int| pair_at(s, i, l, r);
            assert(i >= 1);
            assert(pair_at(s.drop_first(), i - 1, l, r));
        }
    }
}

/// Concatenation distributes over expansion.
pub proof fn lemma_expand_append(v: Seq<(u32, u32)>, a: Seq<u32>, b: Seq<u32>)
    ensures
        expand_seq(v, a + b) == expand_seq(v, a) + expand_seq(v, b),
    decreases a.len(),
{
    if a.len() == 0 {
        assert(a + b =~= b);
        assert(expand_seq(v, a) =~= Seq::<u8>::empty());
        assert(expand_seq(v, a) + expand_seq(v, b) =~= expand_seq(v, b));
    } else {
        assert((a + b).drop_first() =~= a.drop_first() + b);
        lemma_expand_append(v, a.drop_first(), b);
        assert((a + b)[0] == a[0]);
        assert(expand_seq(v, a + b) == expand_code(v, a[0]) + (expand_seq(v, a.drop_first())
            + expand_seq(v, b)));
        assert(expand_code(v, a[0]) + (expand_seq(v, a.drop_first()) + expand_seq(v, b)) =~= (
        expand_code(v, a[0]) + expand_seq(v, a.drop_first())) + expand_seq(v, b));
    }
}

/// A one-element sequence expands to the bytes of its one code.
pub proof fn lemma_expand_singleton(v: Seq<(u32, u32)>, c: u32)
    ensures
        expand_seq(v, seq![c]) == expand_code(v, c),
{
    let s = seq![c];
    assert(s.drop_first() =~= Seq::<u32>::empty());
    assert(expand_seq(v, s.drop_first()) =~= Seq::<u8>::empty());
    assert(expand_code(v, c) + Seq::<u8>::empty() =~= expand_code(v, c));
}

/// A merge pass with the pair and code of a vocabulary entry leaves the
/// expansion of the sequence unchanged.
pub proof fn lemma_merge_expand(v: Seq<(u32, u32)>, s: Seq<u32>, l: u32, r: u32, m: u32)
    requires
        vocab_wf(v),
        is_composite(v, m),
        v[m - 256] == (l, r),
    ensures
        expand_seq(v, spec_merge(s, l, r, m)) == expand_seq(v, s),
    decreases s.len(),
{
    if s.len() < 2 {
    } else if s[0] == l && s[1] == r {
        lemma_merge_expand(v, s.skip(2), l, r, m);
        lemma_expand_append(v, seq![m], spec_merge(s.skip(2), l, r, m));
        lemma_expand_singleton(v, m);
        assert(expand_code(v, m) == expand_code(v, l) + expand_code(v, r));
        assert(s.drop_first()[0] == r);
        assert(s.drop_first().drop_first() =~= s.skip(2));
        assert(expand_seq(v, s.drop_first()) == expand_code(v, r) + expand_seq(v, s.skip(2)));
        assert(expand_seq(v, s) == expand_code(v, l) + (expand_code(v, r) + expand_seq(
            v,
            s.skip(2),
        )));
        assert((expand_code(v, l) + expand_code(v, r)) + expand_seq(v, s.skip(2)) =~= expand_code(
            v,
            l,
        ) + (expand_code(v, r) + expand_seq(v, s.skip(2))));
    } else {
        lemma_merge_expand(v, s.drop_first(), l, r, m);
        lemma_expand_append(v, seq![s[0]], spec_merge(s.drop_first(), l, r, m));
        lemma_expand_singleton(v, s[0]);
    }
}

/// A merge pass whose replacement code is valid keeps every code valid.
pub proof fn lemma_merge_valid(v: Seq<(u32, u32)>, s: Seq<u32>, l: u32, r: u32, m: u32)
    requires
        valid_codes(v, s),
        is_valid_code(v, m),
    ensures
        valid_codes(v, spec_merge(s, l, r, m)),
    decreases s.len(),
{
    if s.len() < 2 {
    } else if s[0] == l && s[1] == r {
        assert(valid_codes(v, s.skip(2))) by {
            assert(forall|i: int|
                0 <= i < s.skip(2).len() ==> #[trigger] s.skip(2)[i] == s[i + 2]);
        }
        lemma_merge_valid(v, s.skip(2), l, r, m);
        let t = seq![m] + spec_merge(s.skip(2), l, r, m);
        assert forall|i: int| 0 <= i < t.len() implies is_valid_code(v, #[trigger] t[i]) by {
            if i > 0 {
                assert(t[i] == spec_merge(s.skip(2), l, r, m)[i - 1]);
            }
        }
    } else {
        assert(valid_codes(v, s.drop_first())) by {
            assert(forall|i: int|
                0 <= i < s.drop_first().len() ==> #[trigger] s.drop_first()[i] == s[i + 1]);
        }
        lemma_merge_valid(v, s.drop_first(), l, r, m);
        let t = seq![s[0]] + spec_merge(s.drop_first(), l, r, m);
        assert forall|i: int| 0 <= i < t.len() implies is_valid_code(v, #[trigger] t[i]) by {
            if i > 0 {
                assert(t[i] == spec_merge(s.drop_first(), l, r, m)[i - 1]);
            }
        }
    }
}

/// A full merge pass leaves no occurrence of the merged pair behind, as
/// long as the replacement code differs from both components.
pub proof fn lemma_merge_no_occurrence(s: Seq<u32>, l: u32, r: u32, m: u32)
    requires
        m != l,
        m != r,
    ensures
        !occurs(spec_merge(s, l, r, m), l, r),
    decreases s.len(),
{
    let res = spec_merge(s, l, r, m);
    if s.len() < 2 {
        if occurs(res, l, r) {
            let i = choose|i: int| pair_at(res, i, l, r);
        }
    } else if s[0] == l && s[1] == r {
        lemma_merge_no_occurrence(s.skip(2), l, r, m);
        let rest = spec_merge(s.skip(2), l, r, m);
        if occurs(res, l, r) {
            let i = choose|i: int| pair_at(res, i, l, r);
            if i == 0 {
                assert(res[0] == m);
            } else {
                assert(pair_at(rest, i - 1, l, r));
            }
        }
    } else {
        lemma_merge_no_occurrence(s.drop_first(), l, r, m);
        let rest = spec_merge(s.drop_first(), l, r, m);
        if occurs(res, l, r) {
            let i = choose|i: int| pair_at(res, i, l, r);
            if i == 0 {
                assert(res[1] == rest[0]);
                if s.drop_first().len() < 2 {
                    assert(rest[0] == s[1]);
                } else if s.drop_first()[0] == l && s.drop_first()[1] == r {
                    assert(rest[0] == m);
                } else {
                    assert(rest[0] == s[1]);
                }
                assert(s[1] == r && s[0] == l);
            } else {
                assert(pair_at(rest, i - 1, l, r));
            }
        }
    }
}

/// Every adjacent pair of a merge pass's output either contains the new
/// code or was already adjacent in the input.
pub proof fn lemma_merge_windows(s: Seq<u32>, l: u32, r: u32, m: u32, a: u32, b: u32)
    requires
        occurs(spec_merge(s, l, r, m), a, b),
    ensures
        a == m || b == m || occurs(s, a, b),
    decreases s.len(),
{
    let res = spec_merge(s, l, r, m);
    let i = choose|i: int| pair_at(res, i, a, b);
    if s.len() < 2 {
        assert(pair_at(s, i, a, b));
    } else if s[0] == l && s[1] == r {
        let rest = spec_merge(s.skip(2), l, r, m);
        if i == 0 {
            assert(a == m);
        } else {
            assert(pair_at(rest, i - 1, a, b));
            lemma_merge_windows(s.skip(2), l, r, m, a, b);
            if occurs(s.skip(2), a, b) {
                let j = choose|j: int| pair_at(s.skip(2), j, a, b);
                assert(pair_at(s, j + 2, a, b));
            }
        }
    } else {
        let rest = spec_merge(s.drop_first(), l, r, m);
        if i == 0 {
            assert(res[0] == s[0] && res[1] == rest[0]);
            if s.drop_first().len() < 2 {
                assert(rest[0] == s[1]);
                assert(pair_at(s, 0, a, b));
            } else if s.drop_first()[0] == l && s.drop_first()[1] == r {
                assert(rest[0] == m);
                assert(b == m);
            } else {
                assert(rest[0] == s[1]);
                assert(pair_at(s, 0, a, b));
            }
        } else {
            assert(pair_at(rest, i - 1, a, b));
            lemma_merge_windows(s.drop_first(), l, r, m, a, b);
            if occurs(s.drop_first(), a, b) {
                let j = choose|j: int| pair_at(s.drop_first(), j, a, b);
                assert(pair_at(s, j + 1, a, b));
            }
        }
    }
}

/// When no merge is available, no adjacent pair at all is in the table.
pub proof fn lemma_min_none_windows(v: Seq<(u32, u32)>, s: Seq<u32>, i: int)
    requires
        0 <= i,
        spec_min_rank_from(v, s, i) is None,
    ensures
        forall|j: int|
            i <= j && j + 1 < s.len() ==> #[trigger] lookup_spec(v, s[j], s[j + 1]) is None,
    decreases s.len() - i,
{
    if i + 1 < s.len() {
        assert(opt_min_rank(lookup_spec(v, s[i], s[i + 1]), spec_min_rank_from(v, s, i + 1))
            is None);
        lemma_min_none_windows(v, s, i + 1);
        assert forall|j: int| i <= j && j + 1 < s.len() implies #[trigger] lookup_spec(
            v,
            s[j],
            s[j + 1],
        ) is None by {
            if j == i {
                assert(lookup_spec(v, s[i], s[i + 1]) is None);
            }
        }
    }
}

/// The highest-priority merge is at least as good as any available one.
pub proof fn lemma_min_rank_le(v: Seq<(u32, u32)>, s: Seq<u32>, i: int, j: int, m: u32)
    requires
        0 <= i <= j,
        j + 1 < s.len(),
        lookup_spec(v, s[j], s[j + 1]) == Some(m),
    ensures
        spec_min_rank_from(v, s, i) matches Some(c) && c <= m,
    decreases j - i,
{
    if i < j {
        lemma_min_rank_le(v, s, i + 1, j, m);
    }
}

/// The merge engine's fixed point really is one: no merge remains.
pub proof fn lemma_rounds_fixed(v: Seq<(u32, u32)>, s: Seq<u32>, fuel: nat)
    requires
        vocab_wf(v),
        fuel >= s.len(),
    ensures
        spec_min_rank(v, spec_rounds(v, s, fuel)) is None,
    decreases fuel,
{
    match spec_min_rank(v, s) {
        None => {
            if fuel == 0 {
                assert(s.len() == 0);
            }
        },
        Some(m) => {
            lemma_min_rank_some(v, s, 0);
            let l = v[m - 256].0;
            let r = v[m - 256].1;
            lemma_merge_len(s, l, r, m);
            assert(occurs(s, l, r));
            if fuel == 0 {
                assert(s.len() == 0);
                let j = choose|j: int| pair_at(s, j, l, r);
            } else {
                lemma_rounds_fixed(v, spec_merge(s, l, r, m), (fuel - 1) as nat);
            }
        },
    }
}

/// Extending the table never changes which merge the engine applies while
/// one is available, and can only offer merges with the new, larger codes
/// where none was.
pub proof fn lemma_min_rank_extend(
    v: Seq<(u32, u32)>,
    v2: Seq<(u32, u32)>,
    s: Seq<u32>,
    i: int,
)
    requires
        vocab_wf(v2),
        v.is_prefix_of(v2),
    ensures
        spec_min_rank_from(v, s, i) matches Some(m) ==> spec_min_rank_from(v2, s, i) == Some(m),
        spec_min_rank_from(v, s, i) is None ==> (spec_min_rank_from(v2, s, i) matches Some(m2)
            ==> m2 >= 256 + v.len()),
    decreases s.len() - i,
{
    lemma_wf_prefix(v, v2);
    if i >= 0 && i + 1 < s.len() {
        lemma_min_rank_extend(v, v2, s, i + 1);
        lemma_lookup_prefix(v, v2, s[i], s[i + 1]);
        let h1 = lookup_spec(v, s[i], s[i + 1]);
        let r1 = spec_min_rank_from(v, s, i + 1);
        if h1 is Some {
            assert(h1->Some_0 < 256 + v.len());
        }
        if r1 is Some {
            lemma_min_rank_some(v, s, i + 1);
            assert(r1->Some_0 < 256 + v.len()) by {
                assert(is_composite(v, r1->Some_0));
            }
        }
    }
}

/// One merge pass, executable form.
pub fn merge_pair(pieces: &Vec<u32>, l: u32, r: u32, m: u32) -> (out: Vec<u32>)
    ensures
        out@ == spec_merge(pieces@, l, r, m),
{
    let s = pieces.as_slice();
    let n = s.len();
    let mut out: Vec<u32> = Vec::new();
    let mut i: usize = 0;
    proof {
        assert(s@.skip(0) =~= s@);
        assert(out@ + spec_merge(s@, l, r, m) =~= spec_merge(s@, l, r, m));
    }
    while i < n
        invariant
            n == s@.len(),
            0 <= i <= n,
            out@ + spec_merge(s@.skip(i as int), l, r, m) == spec_merge(s@, l, r, m),
        decreases n - i,
    {
        let rest = Ghost(s@.skip(i as int));
        if i + 1 < n && s[i] == l && s[i + 1] == r {
            out.push(m);
            proof {
                assert(rest@[0] == l && rest@[1] == r);
                assert(rest@.skip(2) =~= s@.skip(i + 2));
                assert(spec_merge(rest@, l, r, m) == seq![m] + spec_merge(
                    s@.skip(i + 2),
                    l,
                    r,
                    m,
                ));
                assert(out@ + spec_merge(s@.skip(i + 2), l, r, m) =~= (out@.drop_last() + seq![m])
                    + spec_merge(s@.skip(i + 2), l, r, m));
                assert((out@.drop_last() + seq![m]) + spec_merge(s@.skip(i + 2), l, r, m)
                    =~= out@.drop_last() + (seq![m] + spec_merge(s@.skip(i + 2), l, r, m)));
            }
            i += 2;
        } else {
            out.push(s[i]);
            proof {
                assert(rest@[0] == s@[i as int]);
                if rest@.len() >= 2 {
                    assert(!(rest@[0] == l && rest@[1] == r));
                    assert(rest@.drop_first() =~= s@.skip(i + 1));
                } else {
                    assert(rest@ =~= seq![s@[i as int]]);
                    assert(s@.skip(i + 1) =~= Seq::<u32>::empty());
                    assert(spec_merge(rest@, l, r, m) == rest@);
                }
                assert(spec_merge(rest@, l, r, m) == seq![s@[i as int]] + spec_merge(
                    s@.skip(i + 1),
                    l,
                    r,
                    m,
                ));
                assert(out@ + spec_merge(s@.skip(i + 1), l, r, m) =~= (out@.drop_last() + seq![
                    s@[i as int],
                ]) + spec_merge(s@.skip(i + 1), l, r, m));
                assert((out@.drop_last() + seq![s@[i as int]]) + spec_merge(
                    s@.skip(i + 1),
                    l,
                    r,
                    m,
                ) =~= out@.drop_last() + (seq![s@[i as int]] + spec_merge(s@.skip(i + 1), l, r, m)));
            }
            i += 1;
        }
    }
    proof {
        assert(s@.skip(n as int) =~= Seq::<u32>::empty());
        assert(out@ + Seq::<u32>::empty() =~= out@);
    }
    out
}

/// The leaf piece sequence of a byte sequence: each byte as its own symbol
/// code.
pub open spec fn leaf_pieces(b: Seq<u8>) -> Seq<u32> {
    Seq::new(b.len(), |i: int| b[i] as u32)
}

/// Leaf pieces are valid under any table and expand to the bytes they came
/// from.
pub proof fn lemma_expand_leaves(v: Seq<(u32, u32)>, b: Seq<u8>)
    requires
        vocab_wf(v),
    ensures
        valid_codes(v, leaf_pieces(b)),
        expand_seq(v, leaf_pieces(b)) == b,
    decreases b.len(),
{
    let s = leaf_pieces(b);
    if b.len() == 0 {
        assert(expand_seq(v, s) =~= b);
    } else {
        lemma_expand_leaves(v, b.drop_first());
        assert(s.drop_first() =~= leaf_pieces(b.drop_first()));
        assert(expand_code(v, s[0]) =~= seq![b[0]]);
        assert(seq![b[0]] + b.drop_first() =~= b);
    }
}

/// Turns raw bytes into their leaf piece sequence.
pub fn bytes_to_pieces(data: &[u8]) -> (out: Vec<u32>)
    ensures
        out@ == leaf_pieces(data@),
{
    let n = data.len();
    let mut out: Vec<u32> = Vec::new();
    let mut i: usize = 0;
    while i < n
        invariant
            n == data@.len(),
            0 <= i <= n,
            out@.len() == i,
            forall|j: int| 0 <= j < i ==> out@[j] == data@[j] as u32,
        decreases n - i,
    {
        out.push(data[i] as u32);
        i += 1;
    }
    proof {
        assert(out@ =~= leaf_pieces(data@));
    }
    out
}

/// The smaller of two optional ranks, treating `None` as no candidate.
pub open spec fn opt_min_rank(a: Option<u32>, b: Option<u32>) -> Option<u32> {
    match (a, b) {
        (None, None) => None,
        (Some(x), None) => Some(x),
        (None, Some(y)) => Some(y),
        (Some(x), Some(y)) => if x <= y {
            Some(x)
        } else {
            Some(y)
        },
    }
}

/// The smallest merged code of any adjacent pair of `s` at a position at or
/// after `i` that the table defines; `None` when no such pair exists.
pub open spec fn spec_min_rank_from(v: Seq<(u32, u32)>, s: Seq<u32>, i: int) -> Option<u32>
    decreases s.len() - i,
{
    if i < 0 || i + 1 >= s.len() {
        None
    } else {
        opt_min_rank(lookup_spec(v, s[i], s[i + 1]), spec_min_rank_from(v, s, i + 1))
    }
}

/// The smallest merged code of any adjacent pair of `s` that the table
/// defines: the highest-priority merge the engine will apply next.
pub open spec fn spec_min_rank(v: Seq<(u32, u32)>, s: Seq<u32>) -> Option<u32> {
    spec_min_rank_from(v, s, 0)
}

/// What a found minimum rank says: it is a composite code whose pair occurs
/// in the sequence, and the table maps that pair to it.
pub proof fn lemma_min_rank_some(v: Seq<(u32, u32)>, s: Seq<u32>, i: int)
    requires
        vocab_wf(v),
        spec_min_rank_from(v, s, i) is Some,
    ensures
        ({
            let m = spec_min_rank_from(v, s, i)->Some_0;
            &&& is_composite(v, m)
            &&& exists|j: int| i <= j && #[trigger] pair_at(s, j, v[m - 256].0, v[m - 256].1)
            &&& lookup_spec(v, v[m - 256].0, v[m - 256].1) == Some(m)
        }),
    decreases s.len() - i,
{
    let m = spec_min_rank_from(v, s, i)->Some_0;
    let here = lookup_spec(v, s[i], s[i + 1]);
    let rest = spec_min_rank_from(v, s, i + 1);
    if here is Some && Some(m) == here {
        lemma_lookup_some(v, s[i], s[i + 1]);
        assert(v[m - 256] == (s[i], s[i + 1]));
        assert(pair_at(s, i, v[m - 256].0, v[m - 256].1));
    } else {
        assert(rest == Some(m));
        lemma_min_rank_some(v, s, i + 1);
    }
}

/// Repeated merge rounds: while some adjacent pair is in the table, merge
/// every non-overlapping occurrence of the highest-priority one, up to
/// `fuel` rounds.  Since every applied round strictly shortens the
/// sequence, `fuel = s.len()` always reaches the fixed point.
pub open spec fn spec_rounds(v: Seq<(u32, u32)>, s: Seq<u32>, fuel: nat) -> Seq<u32>
    decreases fuel,
{
    if fuel == 0 {
        s
    } else {
        match spec_min_rank(v, s) {
            None => s,
            Some(m) => spec_rounds(
                v,
                spec_merge(s, v[m - 256].0, v[m - 256].1, m),
                (fuel - 1) as nat,
            ),
        }
    }
}

/// The merge engine run to its fixed point on one piece sequence.
pub open spec fn spec_encode_chunk(v: Seq<(u32, u32)>, s: Seq<u32>) -> Seq<u32> {
    spec_rounds(v, s, s.len())
}

/// Any fuel at least the sequence length yields the same fixed point.
pub proof fn lemma_rounds_fuel(v: Seq<(u32, u32)>, s: Seq<u32>, f1: nat, f2: nat)
    requires
        vocab_wf(v),
        f1 >= s.len(),
        f2 >= s.len(),
    ensures
        spec_rounds(v, s, f1) == spec_rounds(v, s, f2),
    decreases f1 + f2,
{
    match spec_min_rank(v, s) {
        None => {},
        Some(m) => {
            if f1 == 0 || f2 == 0 {
                lemma_min_rank_some(v, s, 0);
            } else {
                lemma_min_rank_some(v, s, 0);
                let l = v[m - 256].0;
                let r = v[m - 256].1;
                let s2 = spec_merge(s, l, r, m);
                assert(occurs(s, l, r));
                lemma_merge_len(s, l, r, m);
                lemma_rounds_fuel(v, s2, (f1 - 1) as nat, (f2 - 1) as nat);
            }
        },
    }
}

/// The fixed point never lengthens the sequence and keeps it non-empty.
pub proof fn lemma_rounds_len(v: Seq<(u32, u32)>, s: Seq<u32>, fuel: nat)
    requires
        vocab_wf(v),
    ensures
        spec_rounds(v, s, fuel).len() <= s.len(),
        s.len() >= 1 ==> spec_rounds(v, s, fuel).len() >= 1,
    decreases fuel,
{
    if fuel != 0 {
        match spec_min_rank(v, s) {
            None => {},
            Some(m) => {
                let l = v[m - 256].0;
                let r = v[m - 256].1;
                lemma_merge_len(s, l, r, m);
                lemma_rounds_len(v, spec_merge(s, l, r, m), (fuel - 1) as nat);
            },
        }
    }
}

/// Merge rounds leave the expansion of the sequence unchanged and keep
/// every code valid.
pub proof fn lemma_rounds_expand(v: Seq<(u32, u32)>, s: Seq<u32>, fuel: nat)
    requires
        vocab_wf(v),
        valid_codes(v, s),
    ensures
        expand_seq(v, spec_rounds(v, s, fuel)) == expand_seq(v, s),
        valid_codes(v, spec_rounds(v, s, fuel)),
    decreases fuel,
{
    if fuel != 0 {
        match spec_min_rank(v, s) {
            None => {},
            Some(m) => {
                lemma_min_rank_some(v, s, 0);
                let l = v[m - 256].0;
                let r = v[m - 256].1;
                lemma_merge_expand(v, s, l, r, m);
                lemma_merge_valid(v, s, l, r, m);
                lemma_rounds_expand(v, spec_merge(s, l, r, m), (fuel - 1) as nat);
            },
        }
    }
}

/// Finds the highest-priority merge available in `pieces`: the defined
/// adjacent pair with the smallest merged code, scanned back to front so the
/// running best mirrors the specification exactly.
fn find_min_rank(v: &Vocab, pieces: &Vec<u32>) -> (res: Option<u32>)
    requires
        v.wf(),
    ensures
        res == spec_min_rank(v@, pieces@),
{
    let n = pieces.len();
    if n < 2 {
        return None;
    }
    let mut best: Option<u32> = None;
    let mut i: usize = n - 1;
    proof {
        assert(spec_min_rank_from(v@, pieces@, n - 1) is None);
    }
    while i > 0
        invariant
            v.wf(),
            n == pieces@.len(),
            n >= 2,
            0 <= i <= n - 1,
            best == spec_min_rank_from(v@, pieces@, i as int),
        decreases i,
    {
        i -= 1;
        let here = v.lookup(pieces[i], pieces[i + 1]);
        best = match (here, best) {
            (None, None) => None,
            (Some(x), None) => Some(x),
            (None, Some(y)) => Some(y),
            (Some(x), Some(y)) => if x <= y {
                Some(x)
            } else {
                Some(y)
            },
        };
    }
    best
}

/// The merge engine, executable form: repeats highest-priority merge passes
/// until no adjacent pair of the sequence is in the table.
pub fn run_merges(v: &Vocab, pieces: Vec<u32>) -> (out: Vec<u32>)
    requires
        v.wf(),
    ensures
        out@ == spec_encode_chunk(v@, pieces@),
{
    let mut cur = pieces;
    let ghost orig = cur@;
    loop
        invariant
            v.wf(),
            orig == pieces@,
            spec_rounds(v@, cur@, cur@.len()) == spec_encode_chunk(v@, orig),
        decreases cur@.len(),
    {
        let found = find_min_rank(v, &cur);
        match found {
            None => {
                proof {
                    assert(spec_rounds(v@, cur@, cur@.len()) == cur@);
                }
                return cur;
            },
            Some(m) => {
                proof {
                    lemma_min_rank_some(v@, cur@, 0);
                }
                let (l, r) = v.pair_of(m);
                let next = merge_pair(&cur, l, r, m);
                proof {
                    assert(occurs(cur@, l, r));
                    lemma_merge_len(cur@, l, r, m);
                    assert(next@.len() < cur@.len());
                    assert(cur@.len() >= 1);
                    lemma_rounds_fuel(v@, next@, (cur@.len() - 1) as nat, next@.len() as nat);
                }
                cur = next;
            },
        }
    }
}

} // verus!
