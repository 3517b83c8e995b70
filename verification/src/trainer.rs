use vstd::prelude::*;

use crate::error::TokenizerError;
use crate::merge::{
    lemma_merge_len, lemma_merge_valid, lemma_min_none_windows, merge_pair, occurs, pair_at,
    spec_merge, spec_min_rank,
};
use crate::vocab::{
    is_valid_code, lookup_spec, valid_codes, vocab_wf, Vocab, MAX_ENTRIES,
};

verus! {

/// How often the adjacent pair `(l, r)` occurs in `s`, counting every
/// position (occurrences may overlap).
pub open spec fn pair_count(s: Seq<u32>, l: u32, r: u32) -> nat
    decreases s.len(),
{
    if s.len() < 2 {
        0
    } else {
        (if s[0] == l && s[1] == r {
            1nat
        } else {
            0nat
        }) + pair_count(s.drop_first(), l, r)
    }
}

/// A pair occurs at most once per window.
pub proof fn lemma_pair_count_le(s: Seq<u32>, l: u32, r: u32)
    ensures
        pair_count(s, l, r) <= s.len(),
    decreases s.len(),
{
    if s.len() >= 2 {
        lemma_pair_count_le(s.drop_first(), l, r);
    }
}

/// The training priority order on candidate pairs: a higher occurrence
/// count wins, and among equal counts the lexicographically smaller pair
/// wins, so the choice is deterministic.
pub open spec fn cand_better(s: Seq<u32>, p: (u32, u32), q: (u32, u32)) -> bool {
    ||| pair_count(s, p.0, p.1) > pair_count(s, q.0, q.1)
    ||| (pair_count(s, p.0, p.1) == pair_count(s, q.0, q.1) && (p.0 < q.0 || (p.0 == q.0 && p.1
        < q.1)))
}

/// The best candidate pair among the windows of `s` at positions `i` and
/// later: the one `cand_better` prefers is kept.  A pair already in the
/// table is no candidate; the trainer and the bootstrapper only ever count
/// sequences at the merge-engine fixed point, where no such pair occurs,
/// so on their sequences this is exactly the most-frequent-pair rule and
/// the guard only keeps the choice well-defined elsewhere.
pub open spec fn spec_pick_from(v: Seq<(u32, u32)>, s: Seq<u32>, i: int) -> Option<(u32, u32)>
    decreases s.len() - i,
{
    if i < 0 || i + 1 >= s.len() {
        None
    } else {
        let rest = spec_pick_from(v, s, i + 1);
        let cur = (s[i], s[i + 1]);
        if lookup_spec(v, cur.0, cur.1) is Some {
            rest
        } else {
            match rest {
                None => Some(cur),
                Some(b) => if cand_better(s, cur, b) {
                    Some(cur)
                } else {
                    Some(b)
                },
            }
        }
    }
}

/// The pair the trainer merges next: the most frequent adjacent pair of
/// the working sequence, ties broken toward the lexicographically
/// smallest.
pub open spec fn spec_pick(v: Seq<(u32, u32)>, s: Seq<u32>) -> Option<(u32, u32)> {
    spec_pick_from(v, s, 0)
}

/// A picked pair occurs in the sequence and is not yet in the table.
pub proof fn lemma_pick_some(v: Seq<(u32, u32)>, s: Seq<u32>, i: int)
    requires
        spec_pick_from(v, s, i) is Some,
    ensures
        ({
            let p = spec_pick_from(v, s, i)->Some_0;
            &&& occurs(s, p.0, p.1)
            &&& lookup_spec(v, p.0, p.1) is None
        }),
    decreases s.len() - i,
{
    let p = spec_pick_from(v, s, i)->Some_0;
    let rest = spec_pick_from(v, s, i + 1);
    let cur = (s[i], s[i + 1]);
    if lookup_spec(v, cur.0, cur.1) is Some {
        lemma_pick_some(v, s, i + 1);
    } else {
        if rest is Some && p == rest->Some_0 {
            lemma_pick_some(v, s, i + 1);
        }
        if p == cur {
            assert(pair_at(s, i, p.0, p.1));
        }
    }
}

/// Counts the occurrences of the adjacent pair `(l, r)` in `pieces`.
fn count_pair(pieces: &Vec<u32>, l: u32, r: u32) -> (c: usize)
    ensures
        c == pair_count(pieces@, l, r),
{
    let s = pieces.as_slice();
    let n = s.len();
    let mut c: usize = 0;
    if n < 2 {
        return 0;
    }
    let mut i: usize = n - 1;
    proof {
        assert(pair_count(s@.skip(n - 1), l, r) == 0);
    }
    while i > 0
        invariant
            n == s@.len(),
            n >= 2,
            0 <= i <= n - 1,
            c == pair_count(s@.skip(i as int), l, r),
        decreases i,
    {
        i -= 1;
        proof {
            let suf = s@.skip(i as int);
            assert(suf.len() >= 2);
            assert(suf[0] == s@[i as int] && suf[1] == s@[i + 1]);
            assert(suf.drop_first() =~= s@.skip(i + 1));
            lemma_pair_count_le(suf, l, r);
        }
        if s[i] == l && s[i + 1] == r {
            c += 1;
        }
    }
    proof {
        assert(s@.skip(0) =~= s@);
    }
    c
}

/// Picks the pair the trainer merges next, scanning back to front so the
/// running best mirrors `spec_pick` exactly.
pub fn pick_pair(v: &Vocab, pieces: &Vec<u32>) -> (res: Option<(u32, u32)>)
    requires
        v.wf(),
    ensures
        res == spec_pick(v@, pieces@),
{
    let n = pieces.len();
    if n < 2 {
        return None;
    }
    let mut best: Option<(u32, u32)> = None;
    let mut best_count: usize = 0;
    let mut i: usize = n - 1;
    while i > 0
        invariant
            v.wf(),
            n == pieces@.len(),
            n >= 2,
            0 <= i <= n - 1,
            best == spec_pick_from(v@, pieces@, i as int),
            best matches Some(b) ==> best_count == pair_count(pieces@, b.0, b.1),
        decreases i,
    {
        i -= 1;
        let l = pieces[i];
        let r = pieces[i + 1];
        if v.lookup(l, r).is_none() {
            let c = count_pair(pieces, l, r);
            match best {
                None => {
                    best = Some((l, r));
                    best_count = c;
                },
                Some(b) => {
                    if c > best_count || (c == best_count && (l < b.0 || (l == b.0 && r < b.1))) {
                        best = Some((l, r));
                        best_count = c;
                    }
                },
            }
        }
    }
    best
}

/// The selection helper never prefers a beaten candidate: among the
/// windows at `i` and later whose pairs are not in the table, none beats
/// the one it keeps.
proof fn lemma_pick_from_most_frequent(v: Seq<(u32, u32)>, s: Seq<u32>, i: int)
    requires
        0 <= i,
        forall|j: int|
            i <= j && j + 1 < s.len() ==> #[trigger] lookup_spec(v, s[j], s[j + 1]) is None,
    ensures
        i + 1 < s.len() ==> spec_pick_from(v, s, i) is Some,
        spec_pick_from(v, s, i) matches Some(p) ==> forall|j: int|
            i <= j && j + 1 < s.len() ==> !cand_better(s, (#[trigger] s[j], s[j + 1]), p),
    decreases s.len() - i,
{
    if i + 1 < s.len() {
        lemma_pick_from_most_frequent(v, s, i + 1);
        let cur = (s[i], s[i + 1]);
        assert(lookup_spec(v, s[i], s[i + 1]) is None);
        let rest = spec_pick_from(v, s, i + 1);
        let p = spec_pick_from(v, s, i)->Some_0;
        assert forall|j: int| i <= j && j + 1 < s.len() implies !cand_better(
            s,
            (#[trigger] s[j], s[j + 1]),
            p,
        ) by {
            let w = (s[j], s[j + 1]);
            if j == i {
                match rest {
                    None => {},
                    Some(b) => {
                        if !cand_better(s, cur, b) {
                            assert(p == b);
                        }
                    },
                }
            } else {
                assert(rest is Some);
                let b = rest->Some_0;
                assert(!cand_better(s, w, b));
                if p != b {
                    assert(p == cur && cand_better(s, cur, b));
                    if cand_better(s, w, cur) {
                        assert(cand_better(s, w, b));
                    }
                }
            }
        }
    }
}

/// The trainer's selection rule, stated in full: on a piece sequence at
/// the merge-engine fixed point (where no adjacent pair is in
/// the table, so the candidate guard excludes nothing present), a pair is
/// picked whenever two or more pieces remain, the picked pair occurs in
/// the sequence as it stands, and no adjacent pair of the sequence beats
/// it by occurrence count — nor, at equal count, by lexicographic order.
pub proof fn lemma_pick_most_frequent(v: Seq<(u32, u32)>, s: Seq<u32>)
    requires
        spec_min_rank(v, s) is None,
    ensures
        s.len() >= 2 ==> spec_pick(v, s) is Some,
        spec_pick(v, s) matches Some(p) ==> occurs(s, p.0, p.1) && (forall|j: int|
            0 <= j && j + 1 < s.len() ==> !cand_better(s, (#[trigger] s[j], s[j + 1]), p)),
{
    lemma_min_none_windows(v, s, 0);
    lemma_pick_from_most_frequent(v, s, 0);
    if spec_pick(v, s) is Some {
        lemma_pick_some(v, s, 0);
    }
}

/// One training iteration: pick the best pair, give it the next composite
/// code, and run one merge pass with it; `None` when the sequence has run
/// out of pairs to learn.
pub open spec fn spec_train_step(v: Seq<(u32, u32)>, s: Seq<u32>) -> Option<
    (Seq<(u32, u32)>, Seq<u32>),
> {
    match spec_pick(v, s) {
        None => None,
        Some(p) => {
            let m = (256 + v.len()) as u32;
            Some((v.push(p), spec_merge(s, p.0, p.1, m)))
        },
    }
}

/// Exactly `k` training iterations, or `None` when the sequence runs out
/// of pairs to learn before the last one.
pub open spec fn spec_train_rounds(v: Seq<(u32, u32)>, s: Seq<u32>, k: nat) -> Option<
    (Seq<(u32, u32)>, Seq<u32>),
>
    decreases k,
{
    if k == 0 {
        Some((v, s))
    } else {
        match spec_train_step(v, s) {
            None => None,
            Some((v2, s2)) => spec_train_rounds(v2, s2, (k - 1) as nat),
        }
    }
}

/// The special-token bootstrap: training iterations on one partial encoding
/// until a single symbol remains.
pub open spec fn spec_boot_rounds(v: Seq<(u32, u32)>, s: Seq<u32>, fuel: nat) -> Option<
    (Seq<(u32, u32)>, Seq<u32>),
>
    decreases fuel,
{
    if s.len() <= 1 {
        Some((v, s))
    } else if fuel == 0 {
        None
    } else {
        match spec_train_step(v, s) {
            None => None,
            Some((v2, s2)) => spec_boot_rounds(v2, s2, (fuel - 1) as nat),
        }
    }
}

/// Training only grows the table: a successful run of `k` iterations
/// appends exactly `k` entries after the existing ones.
pub proof fn lemma_train_rounds_grow(v: Seq<(u32, u32)>, s: Seq<u32>, k: nat)
    ensures
        spec_train_rounds(v, s, k) matches Some((v2, s2)) ==> v.is_prefix_of(v2) && v2.len()
            == v.len() + k,
    decreases k,
{
    if k != 0 {
        match spec_train_step(v, s) {
            None => {},
            Some((vm, sm)) => {
                lemma_train_rounds_grow(vm, sm, (k - 1) as nat);
                if spec_train_rounds(vm, sm, (k - 1) as nat) is Some {
                    let (v2, s2) = spec_train_rounds(vm, sm, (k - 1) as nat)->Some_0;
                    assert(v.is_prefix_of(vm)) by {
                        assert(vm.take(v.len() as int) =~= v);
                    }
                    assert(vm.is_prefix_of(v2));
                    assert(v.is_prefix_of(v2)) by {
                        assert(v2.take(v.len() as int) =~= vm.take(v2.take(
                            vm.len() as int,
                        ).len() as int).take(v.len() as int));
                        assert(v2.take(vm.len() as int) =~= vm);
                        assert(v2.take(v.len() as int) =~= vm.take(v.len() as int));
                    }
                }
            },
        }
    }
}

/// The bootstrap only grows the table, and every new entry pays for itself
/// by shortening the partial encoding.
pub proof fn lemma_boot_rounds_grow(v: Seq<(u32, u32)>, s: Seq<u32>, fuel: nat)
    ensures
        spec_boot_rounds(v, s, fuel) matches Some((v2, s2)) ==> v.is_prefix_of(v2) && v2.len()
            + s2.len() <= v.len() + s.len(),
    decreases fuel,
{
    if s.len() <= 1 {
        assert(v.is_prefix_of(v)) by {
            assert(v.take(v.len() as int) =~= v);
        }
    } else if fuel == 0 {
    } else {
        match spec_train_step(v, s) {
            None => {},
            Some((vm, sm)) => {
                lemma_boot_rounds_grow(vm, sm, (fuel - 1) as nat);
                let p = spec_pick(v, s)->Some_0;
                lemma_pick_some(v, s, 0);
                lemma_merge_len(s, p.0, p.1, (256 + v.len()) as u32);
                if spec_boot_rounds(vm, sm, (fuel - 1) as nat) is Some {
                    let (v2, s2) = spec_boot_rounds(vm, sm, (fuel - 1) as nat)->Some_0;
                    assert(v.is_prefix_of(vm)) by {
                        assert(vm.take(v.len() as int) =~= v);
                    }
                    assert(v.is_prefix_of(v2)) by {
                        assert(v2.take(vm.len() as int) =~= vm);
                        assert(v2.take(v.len() as int) =~= vm.take(v.len() as int));
                    }
                }
            },
        }
    }
}

/// A successful training step keeps the table well-formed, only appends to
/// it, and keeps every code of the sequence valid.
pub proof fn lemma_train_step_wf(v: Seq<(u32, u32)>, s: Seq<u32>)
    requires
        vocab_wf(v),
        valid_codes(v, s),
        v.len() < MAX_ENTRIES,
        spec_train_step(v, s) is Some,
    ensures
        ({
            let (v2, s2) = spec_train_step(v, s)->Some_0;
            &&& vocab_wf(v2)
            &&& valid_codes(v2, s2)
            &&& v2 =~= v.push(spec_pick(v, s)->Some_0)
            &&& s2.len() < s.len()
            &&& s2.len() >= 1 || s.len() == 0
        }),
{
    let p = spec_pick(v, s)->Some_0;
    let m = (256 + v.len()) as u32;
    let v2 = v.push(p);
    let s2 = spec_merge(s, p.0, p.1, m);
    lemma_pick_some(v, s, 0);
    let j = choose|j: int| pair_at(s, j, p.0, p.1);
    assert(is_valid_code(v, p.0) && is_valid_code(v, p.1)) by {
        assert(s[j] == p.0 && s[j + 1] == p.1);
        assert(is_valid_code(v, s[j]));
        assert(is_valid_code(v, s[j + 1]));
    }
    assert(vocab_wf(v2)) by {
        assert forall|k: int| 0 <= k < v2.len() implies (#[trigger] v2[k]).0 < 256 + k
            && v2[k].1 < 256 + k by {
            if k < v.len() {
                assert(v2[k] == v[k]);
            }
        }
        assert forall|a: int, b: int| 0 <= a < b < v2.len() implies v2[a] != v2[b] by {
            if b == v.len() {
                assert(v2[a] == v[a]);
                if v[a] == p {
                    assert(lookup_spec(v, p.0, p.1) is Some);
                }
            }
        }
    }
    assert(valid_codes(v2, s)) by {
        assert(forall|i: int|
            0 <= i < s.len() ==> is_valid_code(v, #[trigger] s[i]) ==> is_valid_code(v2, s[i]));
    }
    lemma_merge_valid(v2, s, p.0, p.1, m);
    lemma_merge_len(s, p.0, p.1, m);
    assert(occurs(s, p.0, p.1));
}

/// Runs exactly `k` training iterations against the shared table, leaving
/// the table untouched when the corpus runs out of pairs to learn first.
pub fn train_rounds(voc: &mut Vocab, pieces: Vec<u32>, k: usize) -> (res: Result<
    Vec<u32>,
    TokenizerError,
>)
    requires
        old(voc).wf(),
        valid_codes(old(voc)@, pieces@),
        old(voc)@.len() + k <= MAX_ENTRIES,
    ensures
        final(voc).wf(),
        match spec_train_rounds(old(voc)@, pieces@, k as nat) {
            Some((v2, s2)) => {
                &&& res matches Ok(out) && out@ == s2
                &&& final(voc)@ =~= v2
                &&& valid_codes(v2, s2)
            },
            None => {
                &&& res == Err::<Vec<u32>, TokenizerError>(TokenizerError::InsufficientCorpus)
                &&& final(voc)@ =~= old(voc)@
            },
        },
{
    let ghost v0 = voc@;
    let ghost s0 = pieces@;
    let orig_len = voc.len();
    let mut cur = pieces;
    let mut j: usize = 0;
    while j < k
        invariant
            voc.wf(),
            valid_codes(voc@, cur@),
            0 <= j <= k,
            v0 == old(voc)@,
            s0 == pieces@,
            voc@.len() == v0.len() + j,
            v0.len() == orig_len,
            v0.len() + k <= MAX_ENTRIES,
            voc@.take(orig_len as int) =~= v0,
            spec_train_rounds(v0, s0, k as nat) == spec_train_rounds(
                voc@,
                cur@,
                (k - j) as nat,
            ),
        decreases k - j,
    {
        let picked = pick_pair(voc, &cur);
        match picked {
            None => {
                proof {
                    assert(spec_train_step(voc@, cur@) is None);
                    assert(spec_train_rounds(v0, s0, k as nat) is None);
                }
                voc.truncate_entries(orig_len);
                return Err(TokenizerError::InsufficientCorpus);
            },
            Some((l, r)) => {
                proof {
                    lemma_train_step_wf(voc@, cur@);
                }
                let m = (256 + voc.len()) as u32;
                proof {
                    lemma_pick_some(voc@, cur@, 0);
                }
                let next = merge_pair(&cur, l, r, m);
                voc.push_entry(l, r);
                cur = next;
                j += 1;
            },
        }
    }
    Ok(cur)
}

/// Bootstraps a special token: training iterations on the given partial
/// encoding until one symbol remains, leaving the table untouched when the
/// encoding runs out of fresh pairs first.
pub fn boot_rounds(voc: &mut Vocab, pieces: Vec<u32>) -> (res: Result<Vec<u32>, TokenizerError>)
    requires
        old(voc).wf(),
        valid_codes(old(voc)@, pieces@),
        pieces@.len() >= 1,
        old(voc)@.len() + pieces@.len() <= MAX_ENTRIES + 1,
    ensures
        final(voc).wf(),
        match spec_boot_rounds(old(voc)@, pieces@, pieces@.len() as nat) {
            Some((v2, s2)) => {
                &&& res matches Ok(out) && out@ == s2
                &&& s2.len() == 1
                &&& final(voc)@ =~= v2
            },
            None => {
                &&& res == Err::<Vec<u32>, TokenizerError>(TokenizerError::InsufficientCorpus)
                &&& final(voc)@ =~= old(voc)@
            },
        },
{
    let ghost v0 = voc@;
    let ghost s0 = pieces@;
    let ghost fuel0 = pieces@.len() as nat;
    let orig_len = voc.len();
    let mut cur = pieces;
    let ghost mut fuel: nat = fuel0;
    while cur.len() > 1
        invariant
            voc.wf(),
            valid_codes(voc@, cur@),
            cur@.len() >= 1,
            v0 == old(voc)@,
            s0 == pieces@,
            fuel0 == pieces@.len() as nat,
            fuel >= cur@.len() - 1,
            voc@.len() + cur@.len() <= MAX_ENTRIES + 1,
            voc@.len() >= orig_len,
            v0.len() == orig_len,
            voc@.take(orig_len as int) =~= v0,
            spec_boot_rounds(v0, s0, fuel0) == spec_boot_rounds(voc@, cur@, fuel),
        decreases cur@.len(),
    {
        let picked = pick_pair(voc, &cur);
        match picked {
            None => {
                proof {
                    assert(spec_train_step(voc@, cur@) is None);
                    assert(spec_boot_rounds(v0, s0, fuel0) is None);
                }
                voc.truncate_entries(orig_len);
                return Err(TokenizerError::InsufficientCorpus);
            },
            Some((l, r)) => {
                proof {
                    lemma_train_step_wf(voc@, cur@);
                    lemma_pick_some(voc@, cur@, 0);
                }
                let m = (256 + voc.len()) as u32;
                let next = merge_pair(&cur, l, r, m);
                voc.push_entry(l, r);
                proof {
                    fuel = (fuel - 1) as nat;
                }
                cur = next;
            },
        }
    }
    Ok(cur)
}

} // verus!
