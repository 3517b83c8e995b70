use vstd::prelude::*;

verus! {

/// The greatest number of merge entries a vocabulary may hold: every
/// composite symbol code `256 + k` must fit in a `u32`.
pub const MAX_ENTRIES: usize = 0xffff_ff00;

/// One merge entry per composite symbol code: the entry at index `k` defines
/// the code `256 + k` as the merge of the pair it holds.  Codes `0..=255`
/// stand for raw bytes and are never stored.
///
/// Well-formedness (`vocab_wf`) requires that both components of an entry are
/// codes created strictly earlier (raw bytes or smaller composite codes) and
/// that no two entries define the same pair, so the table is at once the
/// forward mapping `(left, right) -> merged` and the reverse mapping
/// `merged -> (left, right)`.
pub struct Vocab {
    entries: Vec<(u32, u32)>,
}

/// Both components of the entry at index `k` name codes older than `256 + k`,
/// entries never repeat a pair, and every composite code fits in a `u32`.
pub open spec fn vocab_wf(v: Seq<(u32, u32)>) -> bool {
    &&& v.len() <= MAX_ENTRIES
    &&& forall|k: int|
        0 <= k < v.len() ==> (#[trigger] v[k]).0 < 256 + k && v[k].1 < 256 + k
    &&& forall|j: int, k: int| 0 <= j < k < v.len() ==> v[j] != v[k]
}

/// Whether `c` is a composite code defined by `v`.
pub open spec fn is_composite(v: Seq<(u32, u32)>, c: u32) -> bool {
    256 <= c && c - 256 < v.len()
}

/// Whether `c` is a raw byte or a composite code defined by `v`.
pub open spec fn is_valid_code(v: Seq<(u32, u32)>, c: u32) -> bool {
    c < 256 || is_composite(v, c)
}

/// Whether every code of `s` is valid under `v`.
pub open spec fn valid_codes(v: Seq<(u32, u32)>, s: Seq<u32>) -> bool {
    forall|i: int| 0 <= i < s.len() ==> is_valid_code(v, #[trigger] s[i])
}

/// Whether some entry of `v` defines the pair `(l, r)`.
pub open spec fn has_pair(v: Seq<(u32, u32)>, l: u32, r: u32) -> bool {
    exists|k: int| 0 <= k < v.len() && v[k] == (l, r)
}

/// The composite code of the pair `(l, r)`; meaningful only when
/// `has_pair(v, l, r)` holds and `v` is well-formed.
pub open spec fn pair_code(v: Seq<(u32, u32)>, l: u32, r: u32) -> u32 {
    (256 + choose|k: int| 0 <= k < v.len() && v[k] == (l, r)) as u32
}

/// The forward mapping: the code of the pair `(l, r)`, or `None` when no
/// entry defines that pair.
pub open spec fn lookup_spec(v: Seq<(u32, u32)>, l: u32, r: u32) -> Option<u32> {
    if has_pair(v, l, r) {
        Some(pair_code(v, l, r))
    } else {
        None
    }
}

/// The bytes a single symbol code stands for: a raw byte stands for itself,
/// a composite code for the bytes of its two components in order.
pub open spec fn expand_code(v: Seq<(u32, u32)>, c: u32) -> Seq<u8>
    decreases c,
    when vocab_wf(v)
{
    if c < 256 {
        seq![c as u8]
    } else if is_composite(v, c) {
        expand_code(v, v[c - 256].0) + expand_code(v, v[c - 256].1)
    } else {
        seq![]
    }
}

/// The bytes a symbol sequence stands for, in order.
pub open spec fn expand_seq(v: Seq<(u32, u32)>, s: Seq<u32>) -> Seq<u8>
    decreases s.len(),
{
    if s.len() == 0 {
        seq![]
    } else {
        expand_code(v, s[0]) + expand_seq(v, s.drop_first())
    }
}

/// In a well-formed table the entry index of a defined pair is unique.
pub proof fn lemma_pair_index_unique(v: Seq<(u32, u32)>, j: int, k: int)
    requires
        vocab_wf(v),
        0 <= j < v.len(),
        0 <= k < v.len(),
        v[j] == v[k],
    ensures
        j == k,
{
    if j < k || k < j {
        assert(v[j] != v[k]);
    }
}

/// Looking up the pair stored at index `k` yields the code `256 + k`.
pub proof fn lemma_lookup_at_index(v: Seq<(u32, u32)>, k: int)
    requires
        vocab_wf(v),
        0 <= k < v.len(),
    ensures
        lookup_spec(v, v[k].0, v[k].1) == Some((256 + k) as u32),
{
    let l = v[k].0;
    let r = v[k].1;
    assert(v[k] == (l, r));
    assert(has_pair(v, l, r));
    let k2 = choose|k2: int| 0 <= k2 < v.len() && v[k2] == (l, r);
    lemma_pair_index_unique(v, k, k2);
}

/// What a successful lookup says of its result: the code is composite, its
/// entry holds the pair looked up, and both components are strictly smaller
/// than the code.
pub proof fn lemma_lookup_some(v: Seq<(u32, u32)>, l: u32, r: u32)
    requires
        vocab_wf(v),
        lookup_spec(v, l, r) is Some,
    ensures
        ({
            let m = pair_code(v, l, r);
            &&& is_composite(v, m)
            &&& v[m - 256] == (l, r)
            &&& l < m
            &&& r < m
            &&& expand_code(v, m) == expand_code(v, l) + expand_code(v, r)
        }),
{
    let k = choose|k: int| 0 <= k < v.len() && v[k] == (l, r);
    let m = pair_code(v, l, r);
    assert(m == 256 + k);
    assert(v[k].0 < 256 + k && v[k].1 < 256 + k);
}

/// A prefix of a well-formed table is itself well-formed.
pub proof fn lemma_wf_prefix(v: Seq<(u32, u32)>, v2: Seq<(u32, u32)>)
    requires
        vocab_wf(v2),
        v.is_prefix_of(v2),
    ensures
        vocab_wf(v),
{
    assert(forall|k: int| 0 <= k < v.len() ==> #[trigger] v[k] == v2[k]);
}

/// Growing a table never changes what the old pairs merge to, and every
/// pair only the extension defines merges to one of the new codes.
pub proof fn lemma_lookup_prefix(v: Seq<(u32, u32)>, v2: Seq<(u32, u32)>, l: u32, r: u32)
    requires
        vocab_wf(v2),
        v.is_prefix_of(v2),
    ensures
        lookup_spec(v, l, r) matches Some(m) ==> lookup_spec(v2, l, r) == Some(m) && m < 256
            + v.len(),
        lookup_spec(v, l, r) is None ==> (lookup_spec(v2, l, r) matches Some(m2) ==> m2 >= 256
            + v.len()),
{
    assert(forall|k: int| 0 <= k < v.len() ==> #[trigger] v[k] == v2[k]);
    if lookup_spec(v, l, r) is Some {
        let k = choose|k: int| 0 <= k < v.len() && v[k] == (l, r);
        assert(v2[k] == (l, r));
        lemma_lookup_at_index(v2, k);
        let k1 = choose|k1: int| 0 <= k1 < v.len() && v[k1] == (l, r);
        if k1 != k {
            assert(v2[k1] == v2[k]);
            lemma_pair_index_unique(v2, k1, k);
        }
    } else if lookup_spec(v2, l, r) is Some {
        let k2 = choose|k2: int| 0 <= k2 < v2.len() && v2[k2] == (l, r);
        if k2 < v.len() {
            assert(v[k2] == (l, r));
            assert(has_pair(v, l, r));
        }
    }
}

/// The dense-rank invariant: the composite codes of a well-formed table are
/// exactly the contiguous range starting at 256, one per entry, with no gaps
/// and no duplicates.
pub proof fn lemma_dense_codes(v: Seq<(u32, u32)>)
    requires
        vocab_wf(v),
    ensures
        Set::new(|c: u32| is_composite(v, c)) =~= Set::new(
            |c: u32| 256 <= c && c < 256 + v.len(),
        ),
{
}

impl Vocab {
    /// The sequence of merge entries, index `k` defining code `256 + k`.
    pub closed spec fn view(&self) -> Seq<(u32, u32)> {
        self.entries@
    }

    /// Well-formedness of the table.
    pub open spec fn wf(&self) -> bool {
        vocab_wf(self@)
    }

    /// An empty vocabulary: every byte is its own symbol and nothing merges.
    pub fn new() -> (v: Vocab)
        ensures
            v@ =~= Seq::<(u32, u32)>::empty(),
            v.wf(),
    {
        Vocab { entries: Vec::new() }
    }

    /// The number of merge entries.
    pub fn len(&self) -> (n: usize)
        ensures
            n == self@.len(),
    {
        self.entries.len()
    }

    /// The forward lookup: the merged code of `(l, r)`, or `None` when the
    /// pair is not in the table.
    pub fn lookup(&self, l: u32, r: u32) -> (res: Option<u32>)
        requires
            self.wf(),
        ensures
            res == lookup_spec(self@, l, r),
    {
        let n = self.entries.len();
        let mut k: usize = 0;
        while k < n
            invariant
                n == self@.len(),
                0 <= k <= n,
                self.wf(),
                forall|j: int| 0 <= j < k ==> self@[j] != (l, r),
            decreases n - k,
        {
            let e = self.entries[k];
            if e.0 == l && e.1 == r {
                proof {
                    assert(self@[k as int] == (l, r));
                    lemma_lookup_at_index(self@, k as int);
                }
                return Some((256 + k) as u32);
            }
            k += 1;
        }
        proof {
            assert(!has_pair(self@, l, r));
        }
        None
    }

    /// The reverse lookup: the pair of the composite code `c`.
    pub fn pair_of(&self, c: u32) -> (p: (u32, u32))
        requires
            self.wf(),
            is_composite(self@, c),
        ensures
            p == self@[c - 256],
            p.0 < c,
            p.1 < c,
    {
        let k = (c - 256) as usize;
        self.entries[k]
    }

    /// Appends the entry for a fresh pair, defining the next composite code
    /// `256 + |v|`.
    pub fn push_entry(&mut self, l: u32, r: u32)
        requires
            old(self).wf(),
            old(self)@.len() < MAX_ENTRIES,
            is_valid_code(old(self)@, l),
            is_valid_code(old(self)@, r),
            lookup_spec(old(self)@, l, r) is None,
        ensures
            final(self)@ =~= old(self)@.push((l, r)),
            final(self).wf(),
    {
        proof {
            let v = self@;
            let w = v.push((l, r));
            assert forall|k: int| 0 <= k < w.len() implies (#[trigger] w[k]).0 < 256 + k
                && w[k].1 < 256 + k by {
                if k < v.len() {
                    assert(w[k] == v[k]);
                }
            }
            assert forall|j: int, k: int| 0 <= j < k < w.len() implies w[j] != w[k] by {
                if k == v.len() {
                    assert(w[j] == v[j]);
                    assert(!has_pair(v, l, r));
                    if v[j] == (l, r) {
                        assert(has_pair(v, l, r));
                    }
                }
            }
        }
        self.entries.push((l, r));
    }

    /// A vocabulary from a full, already well-formed entry list, as the
    /// loader builds it.
    pub fn from_entries(entries: Vec<(u32, u32)>) -> (v: Vocab)
        requires
            vocab_wf(entries@),
        ensures
            v@ == entries@,
            v.wf(),
    {
        Vocab { entries }
    }

    /// Drops every entry from index `n` on; the inverse of a run of
    /// `push_entry` calls, used to roll back a failed bulk mutation.
    pub fn truncate_entries(&mut self, n: usize)
        requires
            old(self).wf(),
            n <= old(self)@.len(),
        ensures
            final(self)@ =~= old(self)@.take(n as int),
            final(self).wf(),
    {
        self.entries.truncate(n);
    }
}

} // verus!
