use vstd::prelude::*;

use crate::error::TokenizerError;
use crate::vocab::{vocab_wf, Vocab, MAX_ENTRIES};

verus! {

/// The decimal digits of `n`, most significant first, as ASCII bytes.
pub open spec fn dec_bytes(n: nat) -> Seq<u8>
    decreases n,
{
    if n < 10 {
        seq![(48 + n) as u8]
    } else {
        dec_bytes(n / 10).push((48 + n % 10) as u8)
    }
}

/// One persisted entry: the merged code as a quoted decimal key, mapped to
/// the two-element array of its pair, `"256":[72,105]`.
pub open spec fn entry_bytes(code: nat, e: (u32, u32)) -> Seq<u8> {
    seq![34u8] + dec_bytes(code) + seq![34u8, 58u8, 91u8] + dec_bytes(e.0 as nat) + seq![44u8]
        + dec_bytes(e.1 as nat) + seq![93u8]
}

/// The comma-separated entries of the table from index `k` on, in code
/// order.
pub open spec fn entries_bytes(v: Seq<(u32, u32)>, k: int) -> Seq<u8>
    decreases v.len() - k,
{
    if k < 0 || k >= v.len() {
        seq![]
    } else if k == v.len() - 1 {
        entry_bytes((256 + k) as nat, v[k])
    } else {
        entry_bytes((256 + k) as nat, v[k]) + seq![44u8] + entries_bytes(v, k + 1)
    }
}

/// The one persisted shape of a vocabulary table: a braced, comma-separated
/// list of its entries in code order, with no whitespace.
pub open spec fn spec_vocab_json(v: Seq<(u32, u32)>) -> Seq<u8> {
    seq![123u8] + entries_bytes(v, 0) + seq![125u8]
}

/// Writes the decimal digits of `n` after the bytes already in `out`.
fn push_decimal(out: &mut Vec<u8>, n: u32)
    ensures
        final(out)@ == old(out)@ + dec_bytes(n as nat),
    decreases n,
{
    if n < 10 {
        out.push((48 + n) as u8);
        proof {
            assert(old(out)@.push((48 + n) as u8) =~= old(out)@ + dec_bytes(n as nat));
        }
    } else {
        push_decimal(out, n / 10);
        out.push((48 + n % 10) as u8);
        proof {
            assert((old(out)@ + dec_bytes((n / 10) as nat)).push((48 + n % 10) as u8) =~= old(
                out,
            )@ + dec_bytes(n as nat));
        }
    }
}

/// Whether `b` is an ASCII decimal digit.
pub open spec fn is_digit(b: u8) -> bool {
    48 <= b && b <= 57
}

/// The position just past the run of digits starting at `i`.
pub open spec fn digit_run_end(b: Seq<u8>, i: int) -> int
    decreases b.len() - i,
{
    if i < 0 || i >= b.len() || !is_digit(b[i]) {
        i
    } else {
        digit_run_end(b, i + 1)
    }
}

/// The value of the digits `b[i..j)`, read most significant first.
pub open spec fn digits_value(b: Seq<u8>, i: int, j: int) -> nat
    decreases j - i,
{
    if i >= j {
        0
    } else {
        digits_value(b, i, j - 1) * 10 + (b[j - 1] - 48) as nat
    }
}

/// Ten to the `k`.
pub open spec fn pow10(k: nat) -> nat
    decreases k,
{
    if k == 0 {
        1nat
    } else {
        10 * pow10((k - 1) as nat)
    }
}

/// A run of `j - i` digits is worth less than `pow10(j - i)`.
pub proof fn lemma_digits_value_bound(b: Seq<u8>, i: int, j: int)
    requires
        forall|t: int| i <= t < j ==> is_digit(#[trigger] b[t]),
    ensures
        digits_value(b, i, j) < pow10(if j >= i {
            (j - i) as nat
        } else {
            0nat
        }),
    decreases j - i,
{
    if i < j {
        lemma_digits_value_bound(b, i, j - 1);
    }
}

/// The digit run starting at `i` ends between `i` and the end of `b`.
pub proof fn lemma_run_end_bounds(b: Seq<u8>, i: int)
    requires
        0 <= i <= b.len(),
    ensures
        i <= digit_run_end(b, i) <= b.len(),
        forall|t: int| i <= t < digit_run_end(b, i) ==> is_digit(#[trigger] b[t]),
    decreases b.len() - i,
{
    if i < b.len() && is_digit(b[i]) {
        lemma_run_end_bounds(b, i + 1);
    }
}

/// The canonical decimal number starting at position `i`: at least one
/// digit, no redundant leading zero, and a value that fits a `u32`;
/// `None` otherwise.  On success, the value and the position just past the
/// digits.
pub open spec fn spec_parse_u32(b: Seq<u8>, i: int) -> Option<(u32, int)> {
    let j = digit_run_end(b, i);
    if j == i {
        None
    } else if b[i] == 48 && j > i + 1 {
        None
    } else if j - i > 10 {
        None
    } else if digits_value(b, i, j) > 0xffff_ffff {
        None
    } else {
        Some((digits_value(b, i, j) as u32, j))
    }
}

/// Reads a canonical decimal `u32` at position `i`.
fn parse_u32(b: &[u8], i: usize) -> (res: Option<(u32, usize)>)
    requires
        i <= b@.len(),
    ensures
        match res {
            Some((m, j)) => spec_parse_u32(b@, i as int) == Some((m, j as int)) && i < j
                <= b@.len(),
            None => spec_parse_u32(b@, i as int) is None,
        },
{
    let n = b.len();
    let mut j: usize = i;
    loop
        invariant
            i <= j <= n,
            n == b@.len(),
            digit_run_end(b@, i as int) == digit_run_end(b@, j as int),
            forall|t: int| i <= t < j ==> is_digit(#[trigger] b@[t]),
        ensures
            i <= j <= n,
            n == b@.len(),
            digit_run_end(b@, i as int) == j,
            forall|t: int| i <= t < j ==> is_digit(#[trigger] b@[t]),
        decreases n - j,
    {
        if j >= n {
            proof {
                assert(digit_run_end(b@, j as int) == j);
            }
            break;
        }
        let d = b[j];
        if !(48 <= d && d <= 57) {
            proof {
                assert(digit_run_end(b@, j as int) == j);
            }
            break;
        }
        j += 1;
    }
    if j == i {
        return None;
    }
    if b[i] == 48 && j > i + 1 {
        return None;
    }
    if j - i > 10 {
        return None;
    }
    let mut acc: u64 = 0;
    let mut t: usize = i;
    while t < j
        invariant
            i <= t <= j,
            j <= n,
            n == b@.len(),
            j - i <= 10,
            forall|s: int| i <= s < j ==> is_digit(#[trigger] b@[s]),
            acc == digits_value(b@, i as int, t as int),
            acc < 0x2_5400_0000_0000,
        decreases j - t,
    {
        proof {
            lemma_digits_value_bound(b@, i as int, t + 1);
            lemma_pow10_mono((t + 1 - i) as nat, 10);
            reveal_with_fuel(pow10, 11);
            assert(pow10(10) == 10_000_000_000);
        }
        acc = acc * 10 + ((b[t] - 48) as u64);
        t += 1;
    }
    if acc > 0xffff_ffff {
        return None;
    }
    Some((acc as u32, j))
}

/// Larger exponents give larger powers of ten.
pub proof fn lemma_pow10_mono(a: nat, c: nat)
    requires
        a <= c,
    ensures
        pow10(a) <= pow10(c),
        pow10(a) >= 1,
    decreases c,
{
    if c == 0 {
    } else if a == c {
        lemma_pow10_mono((a - 1) as nat, (c - 1) as nat);
    } else {
        lemma_pow10_mono(a, (c - 1) as nat);
    }
}

/// Whether `b` is an ASCII blank a table may carry between its tokens:
/// space, tab, line feed or carriage return.
pub open spec fn is_blank(b: u8) -> bool {
    b == 32 || b == 9 || b == 10 || b == 13
}

/// The position just past the run of blanks starting at `i`.
pub open spec fn blank_end(b: Seq<u8>, i: int) -> int
    decreases b.len() - i,
{
    if i < 0 || i >= b.len() || !is_blank(b[i]) {
        i
    } else {
        blank_end(b, i + 1)
    }
}

/// The blank run starting at `i` ends between `i` and the end of `b`.
pub proof fn lemma_blank_end_bounds(b: Seq<u8>, i: int)
    requires
        0 <= i <= b.len(),
    ensures
        i <= blank_end(b, i) <= b.len(),
    decreases b.len() - i,
{
    if i < b.len() && is_blank(b[i]) {
        lemma_blank_end_bounds(b, i + 1);
    }
}

/// Skips the blanks starting at position `i`.
fn skip_blanks(b: &[u8], i: usize) -> (j: usize)
    requires
        i <= b@.len(),
    ensures
        j as int == blank_end(b@, i as int),
        i <= j <= b@.len(),
{
    let n = b.len();
    let mut j: usize = i;
    loop
        invariant
            i <= j <= n,
            n == b@.len(),
            blank_end(b@, i as int) == blank_end(b@, j as int),
        ensures
            i <= j <= n,
            blank_end(b@, i as int) == j,
        decreases n - j,
    {
        if j >= n {
            proof {
                assert(blank_end(b@, j as int) == j);
            }
            break;
        }
        let d = b[j];
        if !(d == 32 || d == 9 || d == 10 || d == 13) {
            proof {
                assert(blank_end(b@, j as int) == j);
            }
            break;
        }
        j += 1;
    }
    j
}

/// One persisted entry starting at `i`: a quoted decimal key, a colon, and
/// a two-element decimal array, with blanks allowed between the tokens.
/// On success, the `(code, left, right)` triple and the position just past
/// the closing bracket.
pub open spec fn spec_parse_entry(b: Seq<u8>, i: int) -> Option<((u32, u32, u32), int)> {
    if !(0 <= i && i < b.len() && b[i] == 34) {
        None
    } else {
        match spec_parse_u32(b, i + 1) {
            None => None,
            Some((code, j)) => {
                if !(j < b.len() && b[j] == 34) {
                    None
                } else {
                    let j1 = blank_end(b, j + 1);
                    if !(j1 < b.len() && b[j1] == 58) {
                        None
                    } else {
                        let j2 = blank_end(b, j1 + 1);
                        if !(j2 < b.len() && b[j2] == 91) {
                            None
                        } else {
                            match spec_parse_u32(b, blank_end(b, j2 + 1)) {
                                None => None,
                                Some((l, j4)) => {
                                    let j5 = blank_end(b, j4);
                                    if !(j5 < b.len() && b[j5] == 44) {
                                        None
                                    } else {
                                        match spec_parse_u32(b, blank_end(b, j5 + 1)) {
                                            None => None,
                                            Some((r, j7)) => {
                                                let j8 = blank_end(b, j7);
                                                if !(j8 < b.len() && b[j8] == 93) {
                                                    None
                                                } else {
                                                    Some(((code, l, r), j8 + 1))
                                                }
                                            },
                                        }
                                    }
                                },
                            }
                        }
                    }
                }
            },
        }
    }
}

/// Reads one persisted entry at position `i`.
fn parse_entry(b: &[u8], i: usize) -> (res: Option<((u32, u32, u32), usize)>)
    requires
        i <= b@.len(),
    ensures
        match res {
            Some((e, j)) => spec_parse_entry(b@, i as int) == Some((e, j as int)) && i < j
                <= b@.len(),
            None => spec_parse_entry(b@, i as int) is None,
        },
{
    let n = b.len();
    if !(i < n && b[i] == 34) {
        return None;
    }
    let (code, j) = match parse_u32(b, i + 1) {
        None => {
            return None;
        },
        Some(p) => p,
    };
    if !(j < n && b[j] == 34) {
        return None;
    }
    let j1 = skip_blanks(b, j + 1);
    if !(j1 < n && b[j1] == 58) {
        return None;
    }
    let j2 = skip_blanks(b, j1 + 1);
    if !(j2 < n && b[j2] == 91) {
        return None;
    }
    let j3 = skip_blanks(b, j2 + 1);
    let (l, j4) = match parse_u32(b, j3) {
        None => {
            return None;
        },
        Some(p) => p,
    };
    let j5 = skip_blanks(b, j4);
    if !(j5 < n && b[j5] == 44) {
        return None;
    }
    let j6 = skip_blanks(b, j5 + 1);
    let (r, j7) = match parse_u32(b, j6) {
        None => {
            return None;
        },
        Some(p) => p,
    };
    let j8 = skip_blanks(b, j7);
    if !(j8 < n && b[j8] == 93) {
        return None;
    }
    Some(((code, l, r), j8 + 1))
}

/// The comma-separated run of entries starting at `i`: after each entry a
/// comma demands another one, and blanks may stand around the commas.  On
/// success, the triples in order and the position just past the last entry
/// and its trailing blanks.
pub open spec fn spec_parse_entries(b: Seq<u8>, i: int, fuel: nat) -> Option<
    (Seq<(u32, u32, u32)>, int),
>
    decreases fuel,
{
    match spec_parse_entry(b, i) {
        None => None,
        Some((e, j)) => {
            let j1 = blank_end(b, j);
            if j1 < b.len() && b[j1] == 44 {
                if fuel == 0 {
                    None
                } else {
                    match spec_parse_entries(b, blank_end(b, j1 + 1), (fuel - 1) as nat) {
                        None => None,
                        Some((rest, j2)) => Some((seq![e] + rest, j2)),
                    }
                }
            } else {
                Some((seq![e], j1))
            }
        },
    }
}

/// The persisted shape of a whole table: a braced, comma-separated,
/// possibly empty run of entries and nothing else, with blanks allowed
/// between the tokens and around the whole.
pub open spec fn spec_parse_table(b: Seq<u8>) -> Option<Seq<(u32, u32, u32)>> {
    let i0 = blank_end(b, 0);
    if !(i0 < b.len() && b[i0] == 123) {
        None
    } else {
        let i1 = blank_end(b, i0 + 1);
        if i1 < b.len() && b[i1] == 125 {
            if blank_end(b, i1 + 1) == b.len() {
                Some(Seq::<(u32, u32, u32)>::empty())
            } else {
                None
            }
        } else {
            match spec_parse_entries(b, i1, b.len() as nat) {
                None => None,
                Some((es, j)) => if j < b.len() && b[j] == 125 && blank_end(b, j + 1)
                    == b.len() {
                    Some(es)
                } else {
                    None
                },
            }
        }
    }
}

/// Reads the whole persisted table, blanks and all.
pub fn parse_table(b: &[u8]) -> (res: Option<Vec<(u32, u32, u32)>>)
    ensures
        match res {
            Some(out) => spec_parse_table(b@) == Some(out@),
            None => spec_parse_table(b@) is None,
        },
{
    let n = b.len();
    let start = skip_blanks(b, 0);
    if !(start < n && b[start] == 123) {
        return None;
    }
    let first = skip_blanks(b, start + 1);
    if first < n && b[first] == 125 {
        if skip_blanks(b, first + 1) == n {
            let empty: Vec<(u32, u32, u32)> = Vec::new();
            proof {
                assert(empty@ =~= Seq::<(u32, u32, u32)>::empty());
            }
            return Some(empty);
        } else {
            return None;
        }
    }
    let mut out: Vec<(u32, u32, u32)> = Vec::new();
    let mut i: usize = first;
    let ghost i0g = start as int;
    let ghost i1g = first as int;
    let ghost fuel0 = b@.len() as nat;
    let ghost mut fuel: nat = fuel0;
    proof {
        if spec_parse_entries(b@, i1g, fuel0) is Some {
            let (rest, j) = spec_parse_entries(b@, i1g, fuel0)->Some_0;
            assert(out@ + rest =~= rest);
        }
    }
    loop
        invariant
            n == b@.len(),
            0 <= i <= n,
            fuel >= n - i,
            fuel0 == b@.len() as nat,
            i0g == blank_end(b@, 0),
            0 <= i0g < n && b@[i0g] == 123,
            i1g == blank_end(b@, i0g + 1),
            !(i1g < n && b@[i1g] == 125),
            match spec_parse_entries(b@, i as int, fuel) {
                None => spec_parse_entries(b@, i1g, fuel0) is None,
                Some((rest, j)) => spec_parse_entries(b@, i1g, fuel0) == Some((out@ + rest, j)),
            },
        decreases n - i,
    {
        let step = parse_entry(b, i);
        match step {
            None => {
                proof {
                    assert(spec_parse_entries(b@, i as int, fuel) is None);
                }
                return None;
            },
            Some((e, j)) => {
                let ghost pre = out@;
                out.push(e);
                let j1 = skip_blanks(b, j);
                if j1 < n && b[j1] == 44 {
                    let next = skip_blanks(b, j1 + 1);
                    proof {
                        if spec_parse_entries(b@, next as int, (fuel - 1) as nat) is Some {
                            let (rest2, j3) = spec_parse_entries(
                                b@,
                                next as int,
                                (fuel - 1) as nat,
                            )->Some_0;
                            assert(pre + (seq![e] + rest2) =~= out@ + rest2);
                        }
                        fuel = (fuel - 1) as nat;
                    }
                    i = next;
                } else {
                    proof {
                        assert(spec_parse_entries(b@, i as int, fuel) == Some(
                            (seq![e], j1 as int),
                        ));
                        assert(pre + seq![e] =~= out@);
                    }
                    if j1 < n && b[j1] == 125 && skip_blanks(b, j1 + 1) == n {
                        return Some(out);
                    } else {
                        return None;
                    }
                }
            },
        }
    }
}

/// Whether some triple of `ps` carries the composite code `256 + k`.
pub open spec fn covered(ps: Seq<(u32, u32, u32)>, k: int) -> bool {
    exists|a: int| 0 <= a < ps.len() && (#[trigger] ps[a]).0 == 256 + k
}

/// Whether a list of `(code, left, right)` triples is a well-formed table:
/// the codes are exactly the dense range starting at 256, each component
/// names an older code, and no pair is defined twice.
pub open spec fn pairs_ok(ps: Seq<(u32, u32, u32)>) -> bool {
    let n = ps.len();
    &&& n <= MAX_ENTRIES
    &&& forall|a: int|
        0 <= a < n ==> 256 <= (#[trigger] ps[a]).0 && ps[a].0 < 256 + n && ps[a].1 < ps[a].0
            && ps[a].2 < ps[a].0
    &&& forall|a: int, c: int| 0 <= a < c < n ==> ps[a].0 != ps[c].0
    &&& forall|a: int, c: int|
        0 <= a < c < n ==> ((#[trigger] ps[a]).1, ps[a].2) != ((#[trigger] ps[c]).1, ps[c].2)
    &&& forall|k: int| 0 <= k < n ==> covered(ps, k)
}

/// The pair of the triple carrying code `256 + k`; meaningful only when
/// the code is covered exactly once.
pub open spec fn slot_at(ps: Seq<(u32, u32, u32)>, k: int) -> (u32, u32) {
    let a = choose|a: int| 0 <= a < ps.len() && (#[trigger] ps[a]).0 == 256 + k;
    (ps[a].1, ps[a].2)
}

/// Inverts a triple list into the table it persists, in any order of the
/// triples: `None` when the list is not a well-formed table.
pub open spec fn spec_from_pairs(ps: Seq<(u32, u32, u32)>) -> Option<Seq<(u32, u32)>> {
    if pairs_ok(ps) {
        Some(Seq::new(ps.len(), |k: int| slot_at(ps, k)))
    } else {
        None
    }
}

/// A loaded table is well-formed.
pub proof fn lemma_from_pairs_wf(ps: Seq<(u32, u32, u32)>)
    requires
        pairs_ok(ps),
    ensures
        spec_from_pairs(ps) matches Some(v) ==> vocab_wf(v),
{
    let v = Seq::new(ps.len(), |k: int| slot_at(ps, k));
    assert forall|k: int| 0 <= k < v.len() implies (#[trigger] v[k]).0 < 256 + k && v[k].1 < 256
        + k by {
        assert(covered(ps, k));
        let a = choose|a: int| 0 <= a < ps.len() && (#[trigger] ps[a]).0 == 256 + k;
        assert(ps[a].1 < ps[a].0 && ps[a].2 < ps[a].0);
    }
    assert forall|j: int, k: int| 0 <= j < k < v.len() implies v[j] != v[k] by {
        assert(covered(ps, j));
        assert(covered(ps, k));
        let a = choose|a: int| 0 <= a < ps.len() && (#[trigger] ps[a]).0 == 256 + j;
        let c = choose|c: int| 0 <= c < ps.len() && (#[trigger] ps[c]).0 == 256 + k;
        assert(ps[a].0 != ps[c].0);
        if a < c {
            assert((ps[a].1, ps[a].2) != (ps[c].1, ps[c].2));
        } else {
            assert((ps[c].1, ps[c].2) != (ps[a].1, ps[a].2));
        }
    }
}

/// Rebuilds the table from `(code, left, right)` triples in any order,
/// refusing gaps, duplicates, out-of-range codes and components that do
/// not name an older code.
pub fn vocab_from_pairs(ps: &Vec<(u32, u32, u32)>) -> (res: Result<Vocab, TokenizerError>)
    ensures
        match spec_from_pairs(ps@) {
            Some(v) => (res matches Ok(voc) && voc@ == v) && vocab_wf(v),
            None => res == Err::<Vocab, TokenizerError>(TokenizerError::VocabularyParseError),
        },
{
    let n = ps.len();
    if n > MAX_ENTRIES {
        return Err(TokenizerError::VocabularyParseError);
    }
    let mut slots: Vec<Option<(u32, u32)>> = Vec::new();
    let mut k: usize = 0;
    while k < n
        invariant
            0 <= k <= n,
            slots@.len() == k,
            forall|t: int| 0 <= t < k ==> slots@[t] is None,
        decreases n - k,
    {
        slots.push(None);
        k += 1;
    }
    let mut a: usize = 0;
    while a < n
        invariant
            0 <= a <= n,
            n == ps@.len(),
            n <= MAX_ENTRIES,
            slots@.len() == n,
            forall|t: int|
                0 <= t < a ==> 256 <= (#[trigger] ps@[t]).0 && ps@[t].0 < 256 + n && ps@[t].1
                    < ps@[t].0 && ps@[t].2 < ps@[t].0,
            forall|t: int, u: int| 0 <= t < u < a ==> ps@[t].0 != ps@[u].0,
            forall|t: int|
                0 <= t < a ==> slots@[(#[trigger] ps@[t]).0 - 256] == Some(
                    (ps@[t].1, ps@[t].2),
                ),
            forall|s: int|
                0 <= s < n && slots@[s] is Some ==> exists|t: int|
                    0 <= t < a && (#[trigger] ps@[t]).0 == 256 + s,
        decreases n - a,
    {
        let (code, l, r) = ps[a];
        if !(code >= 256 && ((code - 256) as usize) < n && l < code && r < code) {
            proof {
                assert(!pairs_ok(ps@));
            }
            return Err(TokenizerError::VocabularyParseError);
        }
        let idx = (code - 256) as usize;
        if slots[idx].is_some() {
            proof {
                let t = choose|t: int| 0 <= t < a && (#[trigger] ps@[t]).0 == 256 + idx;
                assert(ps@[t].0 == ps@[a as int].0);
                assert(!pairs_ok(ps@));
            }
            return Err(TokenizerError::VocabularyParseError);
        }
        proof {
            assert forall|t: int| 0 <= t < a implies ps@[t].0 != ps@[a as int].0 by {
                assert(slots@[(ps@[t]).0 - 256] == Some((ps@[t].1, ps@[t].2)));
            }
        }
        slots[idx] = Some((l, r));
        a += 1;
    }
    let mut entries: Vec<(u32, u32)> = Vec::new();
    let mut k2: usize = 0;
    while k2 < n
        invariant
            0 <= k2 <= n,
            n == ps@.len(),
            n <= MAX_ENTRIES,
            slots@.len() == n,
            entries@.len() == k2,
            forall|t: int|
                0 <= t < n ==> 256 <= (#[trigger] ps@[t]).0 && ps@[t].0 < 256 + n && ps@[t].1
                    < ps@[t].0 && ps@[t].2 < ps@[t].0,
            forall|t: int, u: int| 0 <= t < u < n ==> ps@[t].0 != ps@[u].0,
            forall|t: int|
                0 <= t < n ==> slots@[(#[trigger] ps@[t]).0 - 256] == Some(
                    (ps@[t].1, ps@[t].2),
                ),
            forall|s: int|
                0 <= s < n && slots@[s] is Some ==> exists|t: int|
                    0 <= t < n && (#[trigger] ps@[t]).0 == 256 + s,
            forall|s: int| 0 <= s < k2 ==> covered(ps@, s),
            forall|s: int|
                0 <= s < k2 ==> Some(#[trigger] entries@[s]) == slots@[s] && entries@[s]
                    == slot_at(ps@, s),
        decreases n - k2,
    {
        match slots[k2] {
            None => {
                proof {
                    assert(!covered(ps@, k2 as int)) by {
                        if covered(ps@, k2 as int) {
                            let t = choose|t: int|
                                0 <= t < ps@.len() && (#[trigger] ps@[t]).0 == 256 + k2;
                            assert(slots@[k2 as int] == Some((ps@[t].1, ps@[t].2)));
                        }
                    }
                    assert(!pairs_ok(ps@));
                }
                return Err(TokenizerError::VocabularyParseError);
            },
            Some(p) => {
                proof {
                    let t = choose|t: int|
                        0 <= t < ps@.len() && (#[trigger] ps@[t]).0 == 256 + k2;
                    assert(covered(ps@, k2 as int)) by {
                        assert(exists|u: int|
                            0 <= u < ps@.len() && (#[trigger] ps@[u]).0 == 256 + k2);
                    }
                    let u = choose|u: int|
                        0 <= u < ps@.len() && (#[trigger] ps@[u]).0 == 256 + k2;
                    assert(slots@[k2 as int] == Some((ps@[u].1, ps@[u].2)));
                }
                entries.push(p);
            },
        }
        k2 += 1;
    }
    let mut x: usize = 0;
    while x < n
        invariant
            0 <= x <= n,
            n == ps@.len(),
            n <= MAX_ENTRIES,
            slots@.len() == n,
            entries@.len() == n,
            forall|t: int|
                0 <= t < n ==> 256 <= (#[trigger] ps@[t]).0 && ps@[t].0 < 256 + n && ps@[t].1
                    < ps@[t].0 && ps@[t].2 < ps@[t].0,
            forall|t: int, u: int| 0 <= t < u < n ==> ps@[t].0 != ps@[u].0,
            forall|t: int|
                0 <= t < n ==> slots@[(#[trigger] ps@[t]).0 - 256] == Some(
                    (ps@[t].1, ps@[t].2),
                ),
            forall|s: int| 0 <= s < n ==> covered(ps@, s),
            forall|s: int|
                0 <= s < n ==> Some(#[trigger] entries@[s]) == slots@[s] && entries@[s]
                    == slot_at(ps@, s),
            forall|p: int, q: int| 0 <= p < q < n && q < x ==> entries@[p] != entries@[q],
        decreases n - x,
    {
        let mut y: usize = 0;
        while y < x
            invariant
                0 <= y <= x < n,
                n == ps@.len(),
                n <= MAX_ENTRIES,
                slots@.len() == n,
                entries@.len() == n,
                forall|t: int|
                    0 <= t < n ==> 256 <= (#[trigger] ps@[t]).0 && ps@[t].0 < 256 + n && ps@[t].1
                        < ps@[t].0 && ps@[t].2 < ps@[t].0,
                forall|t: int, u: int| 0 <= t < u < n ==> ps@[t].0 != ps@[u].0,
                forall|t: int|
                    0 <= t < n ==> slots@[(#[trigger] ps@[t]).0 - 256] == Some(
                        (ps@[t].1, ps@[t].2),
                    ),
                forall|s: int| 0 <= s < n ==> covered(ps@, s),
                forall|s: int|
                    0 <= s < n ==> Some(#[trigger] entries@[s]) == slots@[s] && entries@[s]
                        == slot_at(ps@, s),
                forall|p: int, q: int| 0 <= p < q < n && q < x ==> entries@[p] != entries@[q],
                forall|p: int| 0 <= p < y ==> entries@[p] != entries@[x as int],
            decreases x - y,
        {
            let ey = entries[y];
            let ex = entries[x];
            if ey.0 == ex.0 && ey.1 == ex.1 {
                proof {
                    assert(entries@[y as int] == entries@[x as int]);
                    if pairs_ok(ps@) {
                        assert(covered(ps@, y as int));
                        assert(covered(ps@, x as int));
                        let ty = choose|t: int|
                            0 <= t < ps@.len() && (#[trigger] ps@[t]).0 == 256 + y;
                        let tx = choose|t: int|
                            0 <= t < ps@.len() && (#[trigger] ps@[t]).0 == 256 + x;
                        assert(slots@[y as int] == Some((ps@[ty].1, ps@[ty].2)));
                        assert(slots@[x as int] == Some((ps@[tx].1, ps@[tx].2)));
                        assert(ps@[ty].0 != ps@[tx].0);
                        if ty < tx {
                            assert(((ps@[ty]).1, ps@[ty].2) != ((ps@[tx]).1, ps@[tx].2));
                        } else {
                            assert(((ps@[tx]).1, ps@[tx].2) != ((ps@[ty]).1, ps@[ty].2));
                        }
                        assert(false);
                    }
                }
                return Err(TokenizerError::VocabularyParseError);
            }
            y += 1;
        }
        x += 1;
    }
    proof {
        assert forall|a2: int, c: int| 0 <= a2 < c < n implies ((#[trigger] ps@[a2]).1,
        ps@[a2].2) != ((#[trigger] ps@[c]).1, ps@[c].2) by {
            let sa = ps@[a2].0 - 256;
            let sc = ps@[c].0 - 256;
            assert(Some(entries@[sa]) == slots@[sa]);
            assert(Some(entries@[sc]) == slots@[sc]);
            assert(slots@[sa] == Some((ps@[a2].1, ps@[a2].2)));
            assert(slots@[sc] == Some((ps@[c].1, ps@[c].2)));
            assert(sa != sc);
            if sa < sc {
                assert(entries@[sa] != entries@[sc]);
            } else {
                assert(entries@[sc] != entries@[sa]);
            }
        }
        assert(pairs_ok(ps@));
        lemma_from_pairs_wf(ps@);
        assert(entries@ =~= Seq::new(ps@.len(), |k: int| slot_at(ps@, k)));
    }
    let voc = Vocab::from_entries(entries);
    Ok(voc)
}

/// Decimal digits are digits, and at least one is written.
pub proof fn lemma_dec_bytes_digits(m: nat)
    ensures
        dec_bytes(m).len() >= 1,
        forall|t: int| 0 <= t < dec_bytes(m).len() ==> is_digit(#[trigger] dec_bytes(m)[t]),
        m >= 10 ==> dec_bytes(m).len() >= 2,
        m >= 1 ==> dec_bytes(m)[0] != 48,
    decreases m,
{
    if m >= 10 {
        lemma_dec_bytes_digits(m / 10);
        assert(m / 10 >= 1);
        let d = dec_bytes(m / 10);
        assert(dec_bytes(m) == d.push((48 + m % 10) as u8));
        assert(forall|t: int|
            0 <= t < d.len() ==> #[trigger] dec_bytes(m)[t] == d[t]);
        assert(dec_bytes(m)[d.len() as int] == (48 + m % 10) as u8);
    }
}

/// A value below `pow10(k)` needs at most `k` digits.
pub proof fn lemma_dec_bytes_len(m: nat, k: nat)
    requires
        k >= 1,
        m < pow10(k),
    ensures
        dec_bytes(m).len() <= k,
    decreases m,
{
    if m >= 10 {
        assert(k >= 2) by {
            reveal_with_fuel(pow10, 2);
            if k == 1 {
                assert(pow10(1) == 10);
            }
        }
        assert(pow10(k) == 10 * pow10((k - 1) as nat));
        assert(m / 10 < pow10((k - 1) as nat)) by (nonlinear_arith)
            requires
                m < 10 * pow10((k - 1) as nat),
        ;
        lemma_dec_bytes_len(m / 10, (k - 1) as nat);
    }
}

/// Digits written by `dec_bytes` read back as the value they came from.
pub proof fn lemma_digits_value_of_dec(b: Seq<u8>, i: int, m: nat)
    requires
        0 <= i,
        i + dec_bytes(m).len() <= b.len(),
        b.subrange(i, i + dec_bytes(m).len()) == dec_bytes(m),
    ensures
        digits_value(b, i, i + dec_bytes(m).len()) == m,
    decreases m,
{
    let d = dec_bytes(m);
    let j = i + d.len();
    if m < 10 {
        assert(b[i] == d[0]);
        assert(digits_value(b, i, i) == 0);
    } else {
        let dq = dec_bytes(m / 10);
        assert(d == dq.push((48 + m % 10) as u8));
        assert(b.subrange(i, i + dq.len()) =~= dq) by {
            assert(forall|t: int|
                0 <= t < dq.len() ==> b.subrange(i, j)[t] == #[trigger] b[i + t]);
        }
        lemma_digits_value_of_dec(b, i, m / 10);
        assert(b[j - 1] == d[d.len() - 1]);
        assert(d[d.len() - 1] == (48 + m % 10) as u8);
    }
}

/// The digit run that starts a written decimal ends exactly at its last
/// digit when the next byte is not a digit.
pub proof fn lemma_run_end_of(b: Seq<u8>, i: int, j: int)
    requires
        0 <= i <= j <= b.len(),
        forall|t: int| i <= t < j ==> is_digit(#[trigger] b[t]),
        j == b.len() || !is_digit(b[j]),
    ensures
        digit_run_end(b, i) == j,
    decreases j - i,
{
    if i < j {
        lemma_run_end_of(b, i + 1, j);
    }
}

/// Reading a written decimal gives back the number and stops right after
/// it.
pub proof fn lemma_parse_u32_at(b: Seq<u8>, i: int, m: u32)
    requires
        0 <= i,
        i + dec_bytes(m as nat).len() <= b.len(),
        b.subrange(i, i + dec_bytes(m as nat).len()) == dec_bytes(m as nat),
        i + dec_bytes(m as nat).len() == b.len() || !is_digit(
            b[i + dec_bytes(m as nat).len()],
        ),
    ensures
        spec_parse_u32(b, i) == Some((m, i + dec_bytes(m as nat).len())),
{
    let d = dec_bytes(m as nat);
    let j = i + d.len();
    lemma_dec_bytes_digits(m as nat);
    assert(forall|t: int| i <= t < j ==> is_digit(#[trigger] b[t])) by {
        assert(forall|t: int|
            i <= t < j ==> #[trigger] b[t] == b.subrange(i, j)[t - i]);
    }
    lemma_run_end_of(b, i, j);
    lemma_digits_value_of_dec(b, i, m as nat);
    reveal_with_fuel(pow10, 11);
    lemma_dec_bytes_len(m as nat, 10);
    assert(b[i] == d[0]);
    if m >= 1 {
        assert(b[i] != 48);
    } else {
        assert(d.len() == 1);
    }
}

/// The entry list of the table in code order, as the parser reports it.
pub open spec fn canon_pairs(v: Seq<(u32, u32)>) -> Seq<(u32, u32, u32)> {
    Seq::new(v.len(), |a: int| ((256 + a) as u32, v[a].0, v[a].1))
}

/// Reading a written entry gives back its triple and stops right after it.
pub proof fn lemma_parse_entry_at(b: Seq<u8>, i: int, code: u32, e: (u32, u32))
    requires
        0 <= i,
        i + entry_bytes(code as nat, e).len() <= b.len(),
        b.subrange(i, i + entry_bytes(code as nat, e).len()) == entry_bytes(code as nat, e),
    ensures
        spec_parse_entry(b, i) == Some(((code, e.0, e.1), i + entry_bytes(code as nat, e).len())),
{
    let dc = dec_bytes(code as nat);
    let dl = dec_bytes(e.0 as nat);
    let dr = dec_bytes(e.1 as nat);
    let eb = entry_bytes(code as nat, e);
    let n = eb.len();
    assert(n == 6 + dc.len() + dl.len() + dr.len());
    assert(forall|t: int| 0 <= t < n ==> #[trigger] b[i + t] == eb[t]) by {
        assert(forall|t: int|
            0 <= t < n ==> b.subrange(i, i + n)[t] == #[trigger] b[i + t]);
    }
    lemma_dec_bytes_digits(code as nat);
    lemma_dec_bytes_digits(e.0 as nat);
    lemma_dec_bytes_digits(e.1 as nat);
    assert(eb[0] == 34);
    assert(b[i] == 34);
    let p1 = i + 1;
    assert(forall|t: int| 0 <= t < dc.len() ==> eb[1 + t] == dc[t]);
    assert(b.subrange(p1, p1 + dc.len()) =~= dc);
    let p2 = p1 + dc.len();
    assert(eb[1 + dc.len() as int] == 34);
    assert(b[p2] == 34 && !is_digit(b[p2]));
    lemma_parse_u32_at(b, p1, code);
    assert(eb[2 + dc.len() as int] == 58);
    assert(eb[3 + dc.len() as int] == 91);
    assert(b[p2 + 1] == 58 && b[p2 + 2] == 91);
    assert(blank_end(b, p2 + 1) == p2 + 1);
    assert(blank_end(b, p2 + 2) == p2 + 2);
    let p3 = p2 + 3;
    assert(forall|t: int| 0 <= t < dl.len() ==> eb[4 + dc.len() + t] == dl[t]);
    assert(b.subrange(p3, p3 + dl.len()) =~= dl);
    assert(is_digit(b[p3])) by {
        assert(b[p3] == dl[0]);
    }
    assert(blank_end(b, p3) == p3);
    let p4 = p3 + dl.len();
    assert(eb[4 + dc.len() as int + dl.len() as int] == 44);
    assert(b[p4] == 44 && !is_digit(b[p4]));
    assert(blank_end(b, p4) == p4);
    lemma_parse_u32_at(b, p3, e.0);
    let p5 = p4 + 1;
    assert(forall|t: int| 0 <= t < dr.len() ==> eb[5 + dc.len() + dl.len() + t] == dr[t]);
    assert(b.subrange(p5, p5 + dr.len()) =~= dr);
    assert(is_digit(b[p5])) by {
        assert(b[p5] == dr[0]);
    }
    assert(blank_end(b, p5) == p5);
    let p6 = p5 + dr.len();
    assert(eb[5 + dc.len() as int + dl.len() as int + dr.len() as int] == 93);
    assert(b[p6] == 93 && !is_digit(b[p6]));
    assert(blank_end(b, p6) == p6);
    lemma_parse_u32_at(b, p5, e.1);
    assert(p6 + 1 == i + n);
}

/// The written entry run is never shorter than the number of entries left.
pub proof fn lemma_entries_bytes_len(v: Seq<(u32, u32)>, k: int)
    ensures
        0 <= k < v.len() ==> entries_bytes(v, k).len() >= v.len() - k,
        entries_bytes(v, k).len() >= 0,
    decreases v.len() - k,
{
    if 0 <= k && k < v.len() {
        lemma_dec_bytes_digits((256 + k) as nat);
        lemma_dec_bytes_digits(v[k].0 as nat);
        lemma_dec_bytes_digits(v[k].1 as nat);
        if k < v.len() - 1 {
            lemma_entries_bytes_len(v, k + 1);
        }
    }
}

/// Reading a written entry run gives back the remaining entries in code
/// order and stops right after them.
pub proof fn lemma_parse_entries_at(v: Seq<(u32, u32)>, b: Seq<u8>, i: int, k: int, fuel: nat)
    requires
        vocab_wf(v),
        0 <= k < v.len(),
        0 <= i,
        i + entries_bytes(v, k).len() < b.len(),
        b.subrange(i, i + entries_bytes(v, k).len()) == entries_bytes(v, k),
        b[i + entries_bytes(v, k).len()] == 125,
        fuel >= v.len() - k,
    ensures
        spec_parse_entries(b, i, fuel) == Some(
            (canon_pairs(v).skip(k), i + entries_bytes(v, k).len()),
        ),
    decreases v.len() - k,
{
    let code = (256 + k) as u32;
    let eb = entry_bytes(code as nat, v[k]);
    let all = entries_bytes(v, k);
    if k == v.len() - 1 {
        assert(all == eb);
        lemma_parse_entry_at(b, i, code, v[k]);
        let j = i + eb.len();
        assert(b[j] == 125);
        assert(blank_end(b, j) == j);
        assert(spec_parse_entries(b, i, fuel) == Some(
            (seq![(code, v[k].0, v[k].1)], j),
        ));
        assert(seq![(code, v[k].0, v[k].1)] =~= canon_pairs(v).skip(k));
    } else {
        let rest = entries_bytes(v, k + 1);
        assert(all == eb + seq![44u8] + rest);
        assert(forall|t: int| 0 <= t < all.len() ==> #[trigger] b[i + t] == all[t]) by {
            assert(forall|t: int|
                0 <= t < all.len() ==> b.subrange(i, i + all.len())[t] == #[trigger] b[i + t]);
        }
        assert(b.subrange(i, i + eb.len()) =~= eb);
        lemma_parse_entry_at(b, i, code, v[k]);
        let j = i + eb.len();
        assert(all[eb.len() as int] == 44);
        assert(b[j] == 44);
        assert(blank_end(b, j) == j);
        let i2 = j + 1;
        assert(rest[0] == 34) by {
            let eb2 = entry_bytes((256 + (k + 1)) as nat, v[k + 1]);
            assert(eb2[0] == 34);
            if k + 1 == v.len() - 1 {
                assert(rest == eb2);
            } else {
                assert(rest == eb2 + seq![44u8] + entries_bytes(v, k + 2));
                assert(rest[0] == eb2[0]);
            }
        }
        assert(b[i2] == rest[0]) by {
            assert(b[i + (eb.len() + 1)] == all[eb.len() as int + 1]);
        }
        assert(blank_end(b, i2) == i2);
        assert forall|s: int| 0 <= s < rest.len() implies b[i2 + s] == rest[s] by {
            assert(b[i + (eb.len() + 1 + s)] == all[eb.len() as int + 1 + s]);
        }
        assert(b.subrange(i2, i2 + rest.len() as int) =~= rest) by {
            assert(forall|s: int|
                0 <= s < rest.len() ==> b.subrange(i2, i2 + rest.len() as int)[s]
                    == #[trigger] b[i2 + s]);
        }
        assert(b[i2 + rest.len() as int] == 125) by {
            assert(i2 + rest.len() == i + all.len());
        }
        lemma_parse_entries_at(v, b, i2, k + 1, (fuel - 1) as nat);
        assert(spec_parse_entries(b, i, fuel) == Some(
            (seq![(code, v[k].0, v[k].1)] + canon_pairs(v).skip(k + 1), i2 + rest.len()),
        ));
        assert(seq![(code, v[k].0, v[k].1)] + canon_pairs(v).skip(k + 1) =~= canon_pairs(
            v,
        ).skip(k));
    }
}

/// The persistence round trip: loading a saved table yields exactly the
/// table that was saved, whatever well-formed table it was.
pub proof fn lemma_save_load(v: Seq<(u32, u32)>)
    requires
        vocab_wf(v),
    ensures
        spec_load(spec_vocab_json(v)) == Some(v),
{
    let b = spec_vocab_json(v);
    let n = v.len();
    if n == 0 {
        assert(entries_bytes(v, 0) =~= Seq::<u8>::empty());
        assert(b =~= seq![123u8, 125u8]);
        assert(blank_end(b, 0) == 0);
        assert(blank_end(b, 1) == 1);
        assert(blank_end(b, 2) == 2);
        assert(spec_parse_table(b) == Some(Seq::<(u32, u32, u32)>::empty()));
        assert(pairs_ok(Seq::<(u32, u32, u32)>::empty()));
        assert(Seq::new(0, |k: int| slot_at(Seq::<(u32, u32, u32)>::empty(), k)) =~= v);
    } else {
        let es = entries_bytes(v, 0);
        lemma_entries_bytes_len(v, 0);
        assert(b.len() == es.len() + 2);
        assert(b[0] == 123);
        assert(blank_end(b, 0) == 0);
        assert(b.subrange(1, 1 + es.len() as int) =~= es);
        assert(b[1 + es.len() as int] == 125);
        assert(b[1] == 34) by {
            assert(es[0] == 34) by {
                let eb0 = entry_bytes(256nat, v[0]);
                assert(eb0[0] == 34);
                if n == 1 {
                    assert(es == eb0);
                } else {
                    assert(es == eb0 + seq![44u8] + entries_bytes(v, 1));
                    assert(es[0] == eb0[0]);
                }
            }
            assert(b.subrange(1, 1 + es.len() as int)[0] == b[1]);
        }
        assert(blank_end(b, 1) == 1);
        lemma_parse_entries_at(v, b, 1, 0, b.len() as nat);
        let ps = canon_pairs(v).skip(0);
        assert(ps =~= canon_pairs(v));
        assert(spec_parse_table(b) == Some(canon_pairs(v))) by {
            assert(spec_parse_entries(b, 1, b.len() as nat) == Some(
                (canon_pairs(v), 1 + es.len() as int),
            ));
            assert(1 + es.len() + 1 == b.len());
            assert(blank_end(b, 1 + es.len() as int + 1) == b.len());
        }
        let cp = canon_pairs(v);
        assert(pairs_ok(cp)) by {
            assert(forall|a: int|
                0 <= a < n ==> (#[trigger] cp[a]) == (((256 + a) as u32, v[a].0, v[a].1)));
            assert forall|k: int| 0 <= k < n implies covered(cp, k) by {
                assert(cp[k].0 == 256 + k);
            }
        }
        let loaded = Seq::new(cp.len(), |k: int| slot_at(cp, k));
        assert(loaded =~= v) by {
            assert forall|k: int| 0 <= k < n implies loaded[k] == v[k] by {
                assert(covered(cp, k)) by {
                    assert(cp[k].0 == 256 + k);
                }
                let a = choose|a: int| 0 <= a < cp.len() && (#[trigger] cp[a]).0 == 256 + k;
                assert(cp[a].0 == (256 + a) as u32);
                assert(a == k);
                assert(loaded[k] == (v[k].0, v[k].1));
            }
        }
    }
}

/// Whatever order the persisted triples arrive in, they rebuild the same
/// table: one direction of the claim, applied twice below.
proof fn lemma_from_pairs_permuted(ps1: Seq<(u32, u32, u32)>, ps2: Seq<(u32, u32, u32)>)
    requires
        ps1.to_multiset() == ps2.to_multiset(),
        pairs_ok(ps1),
    ensures
        pairs_ok(ps2),
        spec_from_pairs(ps1) == spec_from_pairs(ps2),
{
    broadcast use vstd::seq_lib::group_to_multiset_ensures;

    ps1.to_multiset_ensures();
    ps2.to_multiset_ensures();
    let n = ps1.len();
    assert(ps2.len() == n);
    assert(ps1.no_duplicates()) by {
        assert forall|t: int, u: int| 0 <= t < ps1.len() && 0 <= u < ps1.len() && t != u
        implies ps1[t] != ps1[u] by {
            if t < u {
                assert(ps1[t].0 != ps1[u].0);
            } else {
                assert(ps1[u].0 != ps1[t].0);
            }
        }
    }
    ps1.lemma_multiset_has_no_duplicates();
    ps2.lemma_multiset_has_no_duplicates_conv();
    assert(ps2.no_duplicates());
    assert forall|a: int| 0 <= a < n implies exists|t: int|
        0 <= t < n && ps1[t] == #[trigger] ps2[a] by {
        assert(ps2.contains(ps2[a]));
        assert(ps2.to_multiset().count(ps2[a]) > 0);
        assert(ps1.contains(ps2[a]));
    }
    assert(pairs_ok(ps2)) by {
        assert forall|a: int| 0 <= a < n implies 256 <= (#[trigger] ps2[a]).0 && ps2[a].0 < 256
            + n && ps2[a].1 < ps2[a].0 && ps2[a].2 < ps2[a].0 by {
            let t = choose|t: int| 0 <= t < n && ps1[t] == ps2[a];
        }
        assert forall|a: int, c: int| 0 <= a < c < n implies ps2[a].0 != ps2[c].0 by {
            assert(ps2[a] != ps2[c]);
            let t = choose|t: int| 0 <= t < n && ps1[t] == ps2[a];
            let u = choose|u: int| 0 <= u < n && ps1[u] == ps2[c];
            assert(t != u);
            if t < u {
                assert(ps1[t].0 != ps1[u].0);
            } else {
                assert(ps1[u].0 != ps1[t].0);
            }
        }
        assert forall|a: int, c: int| 0 <= a < c < n implies ((#[trigger] ps2[a]).1, ps2[a].2)
            != ((#[trigger] ps2[c]).1, ps2[c].2) by {
            assert(ps2[a] != ps2[c]);
            let t = choose|t: int| 0 <= t < n && ps1[t] == ps2[a];
            let u = choose|u: int| 0 <= u < n && ps1[u] == ps2[c];
            assert(t != u);
            if t < u {
                assert((ps1[t].1, ps1[t].2) != ((ps1[u]).1, ps1[u].2));
            } else {
                assert((ps1[u].1, ps1[u].2) != ((ps1[t]).1, ps1[t].2));
            }
        }
        assert forall|k: int| 0 <= k < n implies covered(ps2, k) by {
            assert(covered(ps1, k));
            let t = choose|t: int| 0 <= t < ps1.len() && (#[trigger] ps1[t]).0 == 256 + k;
            assert(ps1.contains(ps1[t]));
            assert(ps1.to_multiset().count(ps1[t]) > 0);
            assert(ps2.contains(ps1[t]));
            let a = choose|a: int| 0 <= a < ps2.len() && ps2[a] == ps1[t];
            assert((ps2[a]).0 == 256 + k);
        }
    }
    assert(Seq::new(n, |k: int| slot_at(ps1, k)) =~= Seq::new(n, |k: int| slot_at(ps2, k))) by {
        assert forall|k: int| 0 <= k < n implies slot_at(ps1, k) == slot_at(ps2, k) by {
            assert(covered(ps1, k));
            assert(covered(ps2, k));
            let t = choose|t: int| 0 <= t < ps1.len() && (#[trigger] ps1[t]).0 == 256 + k;
            let a = choose|a: int| 0 <= a < ps2.len() && (#[trigger] ps2[a]).0 == 256 + k;
            assert(ps2.contains(ps2[a]));
            assert(ps2.to_multiset().count(ps2[a]) > 0);
            assert(ps1.contains(ps2[a]));
            let u = choose|u: int| 0 <= u < ps1.len() && ps1[u] == ps2[a];
            assert(ps1[u].0 == 256 + k);
            if u < t {
                assert(ps1[u].0 != ps1[t].0);
                assert(false);
            } else if t < u {
                assert(ps1[t].0 != ps1[u].0);
                assert(false);
            }
        }
    }
}

/// Loading is independent of the order in which the persisted triples were
/// written: any two arrangements of the same triples rebuild the same
/// table, or both fail.
pub proof fn lemma_load_order_independent(ps1: Seq<(u32, u32, u32)>, ps2: Seq<(u32, u32, u32)>)
    requires
        ps1.to_multiset() == ps2.to_multiset(),
    ensures
        spec_from_pairs(ps1) == spec_from_pairs(ps2),
{
    if pairs_ok(ps1) {
        lemma_from_pairs_permuted(ps1, ps2);
    } else if pairs_ok(ps2) {
        lemma_from_pairs_permuted(ps2, ps1);
    }
}

/// The whole load: parse the persisted bytes, then invert the triples into
/// the forward table.
pub open spec fn spec_load(b: Seq<u8>) -> Option<Seq<(u32, u32)>> {
    match spec_parse_table(b) {
        None => None,
        Some(ps) => spec_from_pairs(ps),
    }
}

/// Deserializes a persisted table, in any key order.
pub fn load_vocab(data: &[u8]) -> (res: Result<Vocab, TokenizerError>)
    ensures
        match spec_load(data@) {
            Some(v) => (res matches Ok(voc) && voc@ == v) && vocab_wf(v),
            None => res == Err::<Vocab, TokenizerError>(TokenizerError::VocabularyParseError),
        },
{
    match parse_table(data) {
        None => Err(TokenizerError::VocabularyParseError),
        Some(ps) => vocab_from_pairs(&ps),
    }
}

/// Serializes the table into its persisted shape.
pub fn save_vocab(v: &Vocab) -> (out: Vec<u8>)
    requires
        v.wf(),
    ensures
        out@ == spec_vocab_json(v@),
{
    let n = v.len();
    let mut out: Vec<u8> = Vec::new();
    out.push(123);
    let mut k: usize = 0;
    proof {
        assert(out@ =~= seq![123u8]);
        assert(spec_vocab_json(v@) =~= out@ + entries_bytes(v@, 0) + seq![125u8]);
    }
    while k < n
        invariant
            v.wf(),
            n == v@.len(),
            0 <= k <= n,
            spec_vocab_json(v@) == out@ + entries_bytes(v@, k as int) + seq![125u8],
        decreases n - k,
    {
        let ghost pre = out@;
        let e = v.pair_of((256 + k) as u32);
        out.push(34);
        push_decimal(&mut out, (256 + k) as u32);
        out.push(34);
        out.push(58);
        out.push(91);
        push_decimal(&mut out, e.0);
        out.push(44);
        push_decimal(&mut out, e.1);
        out.push(93);
        if k + 1 < n {
            out.push(44);
            proof {
                assert(out@ =~= pre + (entry_bytes((256 + k) as nat, v@[k as int]) + seq![44u8]));
                assert(entries_bytes(v@, k as int) =~= entry_bytes((256 + k) as nat, v@[k as int])
                    + seq![44u8] + entries_bytes(v@, k + 1));
                assert(pre + (entry_bytes((256 + k) as nat, v@[k as int]) + seq![44u8])
                    + entries_bytes(v@, k + 1) + seq![125u8] =~= pre + entries_bytes(
                    v@,
                    k as int,
                ) + seq![125u8]);
            }
        } else {
            proof {
                assert(out@ =~= pre + entry_bytes((256 + k) as nat, v@[k as int]));
                assert(entries_bytes(v@, k as int) =~= entry_bytes(
                    (256 + k) as nat,
                    v@[k as int],
                ));
                assert(entries_bytes(v@, k + 1) =~= Seq::<u8>::empty());
                assert(pre + entry_bytes((256 + k) as nat, v@[k as int]) + Seq::<u8>::empty()
                    + seq![125u8] =~= pre + entries_bytes(v@, k as int) + seq![125u8]);
            }
        }
        k += 1;
    }
    out.push(125);
    proof {
        assert(entries_bytes(v@, n as int) =~= Seq::<u8>::empty());
        assert(out@ =~= spec_vocab_json(v@));
    }
    out
}

} // verus!
