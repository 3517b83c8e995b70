use vstd::prelude::*;

use std::time::SystemTime;
use std::time::UNIX_EPOCH;

verus! {

/// One record of a log: the microsecond offset it was filed under and its
/// payload.
#[derive(Clone, Debug)]
pub struct LogEntry {
    /// The offset the record was filed under.
    pub offset: u64,
    /// The payload.
    pub data: String,
}

/// Whether the index keys are strictly ascending.
pub open spec fn index_sorted(ix: Seq<(u64, usize)>) -> bool {
    forall|t: int, u: int| 0 <= t < u < ix.len() ==> (#[trigger] ix[t]).0 < (#[trigger] ix[u]).0
}

/// Whether every index slot points at an entry filed under its key.
pub open spec fn index_ok(ix: Seq<(u64, usize)>, entries: Seq<LogEntry>) -> bool {
    forall|t: int|
        0 <= t < ix.len() ==> (#[trigger] ix[t]).1 < entries.len() && entries[ix[t].1 as int].offset
            == ix[t].0
}

/// The position filed under `off`, if any.
pub open spec fn spec_lookup_off(ix: Seq<(u64, usize)>, off: u64) -> Option<usize>
    decreases ix.len(),
{
    if ix.len() == 0 {
        None
    } else if ix[0].0 == off {
        Some(ix[0].1)
    } else {
        spec_lookup_off(ix.drop_first(), off)
    }
}

/// The index with `(off, pos)` filed in key order, replacing any slot
/// already filed under `off`.
pub open spec fn spec_index_insert(ix: Seq<(u64, usize)>, off: u64, pos: usize) -> Seq<
    (u64, usize),
>
    decreases ix.len(),
{
    if ix.len() == 0 {
        seq![(off, pos)]
    } else if ix[0].0 < off {
        seq![ix[0]] + spec_index_insert(ix.drop_first(), off, pos)
    } else if ix[0].0 == off {
        seq![(off, pos)] + ix.drop_first()
    } else {
        seq![(off, pos)] + ix
    }
}

/// Filing a slot keeps the index sorted, files exactly the given slot
/// under its key, and leaves every other key as it was.
pub proof fn lemma_index_insert_props(ix: Seq<(u64, usize)>, off: u64, pos: usize)
    requires
        index_sorted(ix),
    ensures
        index_sorted(spec_index_insert(ix, off, pos)),
        spec_lookup_off(spec_index_insert(ix, off, pos), off) == Some(pos),
        forall|o: u64|
            o != off ==> #[trigger] spec_lookup_off(spec_index_insert(ix, off, pos), o)
                == spec_lookup_off(ix, o),
        forall|t: int|
            0 <= t < spec_index_insert(ix, off, pos).len() ==> (#[trigger] spec_index_insert(
                ix,
                off,
                pos,
            )[t]) == (off, pos) || exists|u: int|
                0 <= u < ix.len() && ix[u] == spec_index_insert(ix, off, pos)[t],
    decreases ix.len(),
{
    let res = spec_index_insert(ix, off, pos);
    if ix.len() == 0 {
        assert(res.drop_first() =~= Seq::<(u64, usize)>::empty());
        assert forall|o: u64| o != off implies #[trigger] spec_lookup_off(res, o)
            == spec_lookup_off(ix, o) by {
            assert(spec_lookup_off(res, o) == spec_lookup_off(res.drop_first(), o));
        }
    } else if ix[0].0 < off {
        let tail = ix.drop_first();
        assert(index_sorted(tail)) by {
            assert(forall|t: int|
                0 <= t < tail.len() ==> #[trigger] tail[t] == ix[t + 1]);
        }
        lemma_index_insert_props(tail, off, pos);
        let rec = spec_index_insert(tail, off, pos);
        assert(res == seq![ix[0]] + rec);
        assert forall|t: int, u: int| 0 <= t < u < res.len() implies (#[trigger] res[t]).0 < (
        #[trigger] res[u]).0 by {
            if t == 0 {
                assert(res[u] == rec[u - 1]);
                if rec[u - 1] == (off, pos) {
                    assert(ix[0].0 < off);
                } else {
                    let w = choose|w: int| 0 <= w < tail.len() && tail[w] == rec[u - 1];
                    assert(tail[w] == ix[w + 1]);
                    assert(ix[0].0 < ix[w + 1].0);
                }
            } else {
                assert(res[t] == rec[t - 1] && res[u] == rec[u - 1]);
            }
        }
        assert(res.drop_first() =~= rec);
        assert(res[0] == ix[0]);
        assert(spec_lookup_off(res, off) == spec_lookup_off(rec, off));
        assert forall|o: u64| o != off implies #[trigger] spec_lookup_off(res, o)
            == spec_lookup_off(ix, o) by {
            if ix[0].0 == o {
                assert(spec_lookup_off(res, o) == Some(ix[0].1));
                assert(spec_lookup_off(ix, o) == Some(ix[0].1));
            } else {
                assert(spec_lookup_off(res, o) == spec_lookup_off(rec, o));
                assert(spec_lookup_off(rec, o) == spec_lookup_off(tail, o));
                assert(spec_lookup_off(ix, o) == spec_lookup_off(tail, o));
            }
        }
        assert forall|t: int| 0 <= t < res.len() implies (#[trigger] res[t]) == (off, pos)
            || exists|u: int| 0 <= u < ix.len() && ix[u] == res[t] by {
            if t == 0 {
                assert(ix[0] == res[0]);
            } else {
                if rec[t - 1] == (off, pos) {
                } else {
                    let w = choose|w: int| 0 <= w < tail.len() && tail[w] == rec[t - 1];
                    assert(ix[w + 1] == res[t]);
                }
            }
        }
    } else if ix[0].0 == off {
        let tail = ix.drop_first();
        assert(res == seq![(off, pos)] + tail);
        assert(res.drop_first() =~= tail);
        assert forall|t: int, u: int| 0 <= t < u < res.len() implies (#[trigger] res[t]).0 < (
        #[trigger] res[u]).0 by {
            if t == 0 {
                assert(res[u] == ix[u]);
                assert(ix[0].0 < ix[u].0);
            } else {
                assert(res[t] == ix[t] && res[u] == ix[u]);
            }
        }
        assert forall|o: u64| o != off implies #[trigger] spec_lookup_off(res, o)
            == spec_lookup_off(ix, o) by {
            assert(res[0] == (off, pos));
            assert(spec_lookup_off(res, o) == spec_lookup_off(tail, o));
            assert(spec_lookup_off(ix, o) == spec_lookup_off(tail, o));
        }
        assert forall|t: int| 0 <= t < res.len() implies (#[trigger] res[t]) == (off, pos)
            || exists|u: int| 0 <= u < ix.len() && ix[u] == res[t] by {
            if t > 0 {
                assert(ix[t] == res[t]);
            }
        }
    } else {
        assert(res == seq![(off, pos)] + ix);
        assert(res.drop_first() =~= ix);
        assert forall|o: u64| o != off implies #[trigger] spec_lookup_off(res, o)
            == spec_lookup_off(ix, o) by {
            assert(res[0] == (off, pos));
            assert(spec_lookup_off(res, o) == spec_lookup_off(ix, o));
        }
        assert forall|t: int, u: int| 0 <= t < u < res.len() implies (#[trigger] res[t]).0 < (
        #[trigger] res[u]).0 by {
            if t == 0 {
                assert(res[u] == ix[u - 1]);
                if u == 1 {
                    assert(off < ix[0].0);
                } else {
                    assert(ix[0].0 < ix[u - 1].0);
                }
            } else {
                assert(res[t] == ix[t - 1] && res[u] == ix[u - 1]);
            }
        }
        assert forall|t: int| 0 <= t < res.len() implies (#[trigger] res[t]) == (off, pos)
            || exists|u: int| 0 <= u < ix.len() && ix[u] == res[t] by {
            if t > 0 {
                assert(ix[t - 1] == res[t]);
            }
        }
    }
}

/// The index slots whose keys fall in `[start, end)`, in index order.
pub open spec fn spec_range_sel(ix: Seq<(u64, usize)>, start: u64, end: u64) -> Seq<
    (u64, usize),
>
    decreases ix.len(),
{
    if ix.len() == 0 {
        Seq::<(u64, usize)>::empty()
    } else {
        (if start <= ix[0].0 && ix[0].0 < end {
            seq![ix[0]]
        } else {
            Seq::<(u64, usize)>::empty()
        }) + spec_range_sel(ix.drop_first(), start, end)
    }
}

/// Whether the second log state extends the first by one record under
/// some clock offset: the payload is appended and the index files that
/// offset over the new position.
pub open spec fn appended_under(
    e2: Seq<LogEntry>,
    ix2: Seq<(u64, usize)>,
    e1: Seq<LogEntry>,
    ix1: Seq<(u64, usize)>,
    data: String,
) -> bool {
    exists|off: u64|
        e2 == e1.push((LogEntry { offset: off, data })) && ix2 == #[trigger] spec_index_insert(
            ix1,
            off,
            e1.len() as usize,
        )
}

/// An append-only log of records filed under microsecond offsets, with an
/// index from offset to position kept in key order.
#[derive(Debug)]
pub struct Log {
    entries: Vec<LogEntry>,
    index: Vec<(u64, usize)>,
}

impl Log {
    /// The records in append order.
    pub closed spec fn entries_view(&self) -> Seq<LogEntry> {
        self.entries@
    }

    /// The offset index, in ascending key order.
    pub closed spec fn index_view(&self) -> Seq<(u64, usize)> {
        self.index@
    }

    /// A well-formed log: the index is sorted and every slot points at an
    /// entry filed under its key.
    pub open spec fn wf(&self) -> bool {
        index_sorted(self.index_view()) && index_ok(self.index_view(), self.entries_view())
    }

    /// An empty log.
    pub fn new() -> (r: Log)
        ensures
            r.wf(),
            r.entries_view() =~= Seq::<LogEntry>::empty(),
            r.index_view() =~= Seq::<(u64, usize)>::empty(),
    {
        Log { entries: Vec::new(), index: Vec::new() }
    }

    /// Relies on `SystemTime::now` and `Duration::as_micros`: the moment of
    /// the call as microseconds since the Unix epoch.  The value depends on
    /// the clock, so nothing is promised of it.
    #[verifier::external_body]
    pub fn current_microseconds() -> u64 {
        match SystemTime::now().duration_since(UNIX_EPOCH) {
            Ok(d) => d.as_micros() as u64,
            Err(_) => 0,
        }
    }

    /// Appends a record under the given offset: the payload is stored at
    /// the end and the index files the offset over any earlier record
    /// under the same one.
    pub fn append_at(&mut self, offset: u64, data: String)
        requires
            old(self).wf(),
        ensures
            final(self).wf(),
            final(self).entries_view() == old(self).entries_view().push(
                (LogEntry { offset, data }),
            ),
            final(self).index_view() == spec_index_insert(
                old(self).index_view(),
                offset,
                old(self).entries_view().len() as usize,
            ),
    {
        let pos = self.entries.len();
        self.entries.push(LogEntry { offset, data });
        let ghost old_ix = self.index@;
        let n = self.index.len();
        let mut out: Vec<(u64, usize)> = Vec::new();
        let mut t: usize = 0;
        proof {
            assert(old_ix.skip(0) =~= old_ix);
            assert(out@ + spec_index_insert(old_ix, offset, pos) =~= spec_index_insert(
                old_ix,
                offset,
                pos,
            ));
        }
        loop
            invariant_except_break
                0 <= t <= n,
                out@ + spec_index_insert(old_ix.skip(t as int), offset, pos) == spec_index_insert(
                    old_ix,
                    offset,
                    pos,
                ),
            invariant
                n == old_ix.len(),
                old_ix == self.index@,
            ensures
                out@ == spec_index_insert(old_ix, offset, pos),
            decreases n - t + 1,
        {
            let ghost suf = old_ix.skip(t as int);
            if t >= n {
                out.push((offset, pos));
                proof {
                    assert(suf =~= Seq::<(u64, usize)>::empty());
                    assert(spec_index_insert(suf, offset, pos) =~= seq![(offset, pos)]);
                    assert(out@.drop_last() + seq![(offset, pos)] =~= out@);
                    assert(out@ + Seq::<(u64, usize)>::empty() =~= out@);
                }
                break;
            }
            let (k, p) = self.index[t];
            proof {
                assert(suf[0] == (k, p));
                assert(suf.drop_first() =~= old_ix.skip(t + 1));
            }
            if k < offset {
                out.push((k, p));
                proof {
                    assert(spec_index_insert(suf, offset, pos) == seq![(k, p)]
                        + spec_index_insert(old_ix.skip(t + 1), offset, pos));
                    assert(out@.drop_last() + (seq![(k, p)] + spec_index_insert(
                        old_ix.skip(t + 1),
                        offset,
                        pos,
                    )) =~= out@ + spec_index_insert(old_ix.skip(t + 1), offset, pos));
                }
                t += 1;
            } else if k == offset {
                out.push((offset, pos));
                proof {
                    assert(spec_index_insert(suf, offset, pos) == seq![(offset, pos)]
                        + old_ix.skip(t + 1));
                    assert(out@.drop_last() + (seq![(offset, pos)] + old_ix.skip(t + 1))
                        =~= out@ + old_ix.skip(t + 1) + Seq::<(u64, usize)>::empty());
                }
                let mut u: usize = t + 1;
                while u < n
                    invariant
                        n == old_ix.len(),
                        old_ix == self.index@,
                        t + 1 <= u <= n,
                        out@ + old_ix.skip(u as int) + Seq::<(u64, usize)>::empty()
                            == spec_index_insert(old_ix, offset, pos),
                    decreases n - u,
                {
                    let (k2, p2) = self.index[u];
                    out.push((k2, p2));
                    proof {
                        assert(old_ix.skip(u as int)[0] == (k2, p2));
                        assert(old_ix.skip(u as int).drop_first() =~= old_ix.skip(u + 1));
                        assert(out@.drop_last() + old_ix.skip(u as int) + Seq::<
                            (u64, usize),
                        >::empty() =~= out@ + old_ix.skip(u + 1) + Seq::<(u64, usize)>::empty());
                    }
                    u += 1;
                }
                proof {
                    assert(old_ix.skip(n as int) =~= Seq::<(u64, usize)>::empty());
                    assert(out@ + Seq::<(u64, usize)>::empty() + Seq::<(u64, usize)>::empty()
                        =~= out@);
                }
                break;
            } else {
                out.push((offset, pos));
                proof {
                    assert(spec_index_insert(suf, offset, pos) == seq![(offset, pos)] + suf);
                    assert(out@.drop_last() + (seq![(offset, pos)] + suf) =~= out@ + old_ix.skip(
                        t as int,
                    ) + Seq::<(u64, usize)>::empty());
                }
                let mut u: usize = t;
                while u < n
                    invariant
                        n == old_ix.len(),
                        old_ix == self.index@,
                        t <= u <= n,
                        out@ + old_ix.skip(u as int) + Seq::<(u64, usize)>::empty()
                            == spec_index_insert(old_ix, offset, pos),
                    decreases n - u,
                {
                    let (k2, p2) = self.index[u];
                    out.push((k2, p2));
                    proof {
                        assert(old_ix.skip(u as int)[0] == (k2, p2));
                        assert(old_ix.skip(u as int).drop_first() =~= old_ix.skip(u + 1));
                        assert(out@.drop_last() + old_ix.skip(u as int) + Seq::<
                            (u64, usize),
                        >::empty() =~= out@ + old_ix.skip(u + 1) + Seq::<(u64, usize)>::empty());
                    }
                    u += 1;
                }
                proof {
                    assert(old_ix.skip(n as int) =~= Seq::<(u64, usize)>::empty());
                    assert(out@ + Seq::<(u64, usize)>::empty() + Seq::<(u64, usize)>::empty()
                        =~= out@);
                }
                break;
            }
        }
        self.index = out;
        proof {
            lemma_index_insert_props(old_ix, offset, pos);
            let res = spec_index_insert(old_ix, offset, pos);
            assert forall|w: int| 0 <= w < res.len() implies (#[trigger] res[w]).1
                < self.entries@.len() && self.entries@[res[w].1 as int].offset == res[w].0 by {
                if res[w] == (offset, pos) {
                    assert(self.entries@[pos as int].offset == offset);
                } else {
                    let u2 = choose|u2: int| 0 <= u2 < old_ix.len() && old_ix[u2] == res[w];
                    assert(old_ix[u2].1 < old(self).entries@.len());
                    assert(self.entries@[old_ix[u2].1 as int] == old(self).entries@[old_ix[
                        u2
                    ].1 as int]);
                }
            }
        }
    }

    /// Appends a record under the clock's current microsecond offset.
    pub fn append(&mut self, data: String)
        requires
            old(self).wf(),
        ensures
            final(self).wf(),
            appended_under(
                final(self).entries_view(),
                final(self).index_view(),
                old(self).entries_view(),
                old(self).index_view(),
                data,
            ),
    {
        let off = Self::current_microseconds();
        self.append_at(off, data);
    }

    /// The record filed under `offset`, if any: a copy of the latest entry
    /// the index holds for it.
    pub fn get(&self, offset: u64) -> (res: Option<LogEntry>)
        requires
            self.wf(),
        ensures
            res is Some <==> spec_lookup_off(self.index_view(), offset) is Some,
            res matches Some(e) ==> (spec_lookup_off(self.index_view(), offset) matches Some(p)
                && e.offset == offset && e.data@ == self.entries_view()[p as int].data@),
    {
        let n = self.index.len();
        let mut t: usize = 0;
        proof {
            assert(self.index_view().skip(0) =~= self.index_view());
        }
        while t < n
            invariant
                self.wf(),
                n == self.index_view().len(),
                0 <= t <= n,
                spec_lookup_off(self.index_view(), offset) == spec_lookup_off(
                    self.index_view().skip(t as int),
                    offset,
                ),
            decreases n - t,
        {
            let (k, p) = self.index[t];
            proof {
                let suf = self.index_view().skip(t as int);
                assert(suf[0] == (k, p));
                assert(suf.drop_first() =~= self.index_view().skip(t + 1));
            }
            if k == offset {
                let e = LogEntry { offset, data: self.entries[p].data.clone() };
                return Some(e);
            }
            t += 1;
        }
        proof {
            assert(self.index_view().skip(n as int) =~= Seq::<(u64, usize)>::empty());
        }
        None
    }

    /// Copies of the records filed under offsets in `[start, end)`, in
    /// ascending offset order.
    pub fn get_range(&self, start: u64, end: u64) -> (res: Vec<LogEntry>)
        requires
            self.wf(),
        ensures
            ({
                let sel = spec_range_sel(self.index_view(), start, end);
                &&& res@.len() == sel.len()
                &&& forall|i: int|
                    0 <= i < sel.len() ==> (#[trigger] res@[i]).offset == sel[i].0 && res@[i].data@
                        == self.entries_view()[sel[i].1 as int].data@
            }),
    {
        let n = self.index.len();
        let mut res: Vec<LogEntry> = Vec::new();
        let ghost mut selp = Seq::<(u64, usize)>::empty();
        let mut t: usize = 0;
        proof {
            assert(self.index_view().skip(0) =~= self.index_view());
            assert(selp + spec_range_sel(self.index_view(), start, end) =~= spec_range_sel(
                self.index_view(),
                start,
                end,
            ));
        }
        while t < n
            invariant
                self.wf(),
                n == self.index_view().len(),
                0 <= t <= n,
                selp + spec_range_sel(self.index_view().skip(t as int), start, end)
                    == spec_range_sel(self.index_view(), start, end),
                res@.len() == selp.len(),
                forall|i: int|
                    0 <= i < selp.len() ==> (#[trigger] res@[i]).offset == selp[i].0 && res@[
                        i
                    ].data@ == self.entries_view()[selp[i].1 as int].data@,
            decreases n - t,
        {
            let (k, p) = self.index[t];
            proof {
                let suf = self.index_view().skip(t as int);
                assert(suf[0] == (k, p));
                assert(suf.drop_first() =~= self.index_view().skip(t + 1));
            }
            if start <= k && k < end {
                res.push(LogEntry { offset: k, data: self.entries[p].data.clone() });
                proof {
                    let suf = self.index_view().skip(t as int);
                    assert(spec_range_sel(suf, start, end) == seq![(k, p)] + spec_range_sel(
                        self.index_view().skip(t + 1),
                        start,
                        end,
                    ));
                    assert((selp + seq![(k, p)]) + spec_range_sel(
                        self.index_view().skip(t + 1),
                        start,
                        end,
                    ) =~= selp + (seq![(k, p)] + spec_range_sel(
                        self.index_view().skip(t + 1),
                        start,
                        end,
                    )));
                    selp = selp + seq![(k, p)];
                }
            } else {
                proof {
                    let suf = self.index_view().skip(t as int);
                    assert(spec_range_sel(suf, start, end) == Seq::<(u64, usize)>::empty()
                        + spec_range_sel(self.index_view().skip(t + 1), start, end));
                    assert(Seq::<(u64, usize)>::empty() + spec_range_sel(
                        self.index_view().skip(t + 1),
                        start,
                        end,
                    ) =~= spec_range_sel(self.index_view().skip(t + 1), start, end));
                }
            }
            t += 1;
        }
        proof {
            assert(self.index_view().skip(n as int) =~= Seq::<(u64, usize)>::empty());
            assert(spec_range_sel(Seq::<(u64, usize)>::empty(), start, end) =~= Seq::<
                (u64, usize),
            >::empty());
            assert(selp + Seq::<(u64, usize)>::empty() =~= selp);
        }
        res
    }

    /// Drops every record and the whole index.
    pub fn flush(&mut self)
        ensures
            final(self).wf(),
            final(self).entries_view() =~= Seq::<LogEntry>::empty(),
            final(self).index_view() =~= Seq::<(u64, usize)>::empty(),
    {
        self.entries.clear();
        self.index.clear();
    }

    /// A deep copy: same records in the same order under the same index.
    pub fn duplicate(&self) -> (r: Log)
        requires
            self.wf(),
        ensures
            r.wf(),
            r.index_view() == self.index_view(),
            r.entries_view().len() == self.entries_view().len(),
            forall|i: int|
                0 <= i < self.entries_view().len() ==> (#[trigger] r.entries_view()[i]).offset
                    == self.entries_view()[i].offset && r.entries_view()[i].data@
                    == self.entries_view()[i].data@,
    {
        let n = self.entries.len();
        let mut entries: Vec<LogEntry> = Vec::new();
        let mut t: usize = 0;
        while t < n
            invariant
                self.wf(),
                n == self.entries_view().len(),
                0 <= t <= n,
                entries@.len() == t,
                forall|i: int|
                    0 <= i < t ==> (#[trigger] entries@[i]).offset == self.entries_view()[i].offset
                        && entries@[i].data@ == self.entries_view()[i].data@,
            decreases n - t,
        {
            let e = LogEntry {
                offset: self.entries[t].offset,
                data: self.entries[t].data.clone(),
            };
            entries.push(e);
            t += 1;
        }
        let m = self.index.len();
        let mut index: Vec<(u64, usize)> = Vec::new();
        let mut u: usize = 0;
        while u < m
            invariant
                self.wf(),
                m == self.index_view().len(),
                0 <= u <= m,
                index@ =~= self.index_view().take(u as int),
            decreases m - u,
        {
            index.push(self.index[u]);
            proof {
                assert(index@ =~= self.index_view().take(u + 1));
            }
            u += 1;
        }
        proof {
            assert(self.index_view().take(m as int) =~= self.index_view());
        }
        let r = Log { entries, index };
        proof {
            assert(index_ok(r.index_view(), r.entries_view())) by {
                assert forall|w: int| 0 <= w < r.index_view().len() implies (
                #[trigger] r.index_view()[w]).1 < r.entries_view().len() && r.entries_view()[
                    r.index_view()[w].1 as int
                ].offset == r.index_view()[w].0 by {
                    assert(r.index_view()[w] == self.index_view()[w]);
                }
            }
        }
        r
    }
}

/// A set of named logs.
pub struct LogManager {
    logs: Vec<(String, Log)>,
}

/// The log filed under `name`, if any.
pub open spec fn spec_mgr_find(ls: Seq<(String, Log)>, name: Seq<char>) -> Option<Log>
    decreases ls.len(),
{
    if ls.len() == 0 {
        None
    } else if ls[0].0@ == name {
        Some(ls[0].1)
    } else {
        spec_mgr_find(ls.drop_first(), name)
    }
}

impl LogManager {
    /// The named logs, in creation order.
    pub closed spec fn logs_view(&self) -> Seq<(String, Log)> {
        self.logs@
    }

    /// A well-formed manager: names are unique and every log is
    /// well-formed.
    pub open spec fn wf(&self) -> bool {
        &&& forall|t: int, u: int|
            0 <= t < u < self.logs_view().len() ==> (#[trigger] self.logs_view()[t]).0@ != (
            #[trigger] self.logs_view()[u]).0@
        &&& forall|t: int| 0 <= t < self.logs_view().len() ==> (#[trigger] self.logs_view()[t]).1.wf()
    }

    /// An empty manager.
    pub fn new() -> (r: LogManager)
        ensures
            r.wf(),
            r.logs_view() =~= Seq::<(String, Log)>::empty(),
    {
        LogManager { logs: Vec::new() }
    }

    /// Finds the position of a name.
    fn find_pos(&self, name: &str) -> (res: Option<usize>)
        requires
            self.wf(),
        ensures
            match res {
                Some(t) => t < self.logs_view().len() && self.logs_view()[t as int].0@ == name@
                    && spec_mgr_find(self.logs_view(), name@) == Some(
                    self.logs_view()[t as int].1,
                ),
                None => spec_mgr_find(self.logs_view(), name@) is None,
            },
    {
        let n = self.logs.len();
        let key: String = name.to_owned();
        let mut t: usize = 0;
        proof {
            assert(self.logs_view().skip(0) =~= self.logs_view());
        }
        while t < n
            invariant
                self.wf(),
                n == self.logs_view().len(),
                0 <= t <= n,
                key@ == name@,
                spec_mgr_find(self.logs_view(), name@) == spec_mgr_find(
                    self.logs_view().skip(t as int),
                    name@,
                ),
            decreases n - t,
        {
            proof {
                let suf = self.logs_view().skip(t as int);
                assert(suf[0] == self.logs_view()[t as int]);
                assert(suf.drop_first() =~= self.logs_view().skip(t + 1));
            }
            if self.logs[t].0 == key {
                return Some(t);
            }
            t += 1;
        }
        proof {
            assert(self.logs_view().skip(n as int) =~= Seq::<(String, Log)>::empty());
        }
        None
    }

    /// Creates (or resets) the log of the given name as an empty one,
    /// leaving every other name untouched.
    pub fn create_log(&mut self, name: &str)
        requires
            old(self).wf(),
        ensures
            final(self).wf(),
            spec_mgr_find(final(self).logs_view(), name@) matches Some(lg) && lg.entries_view()
                =~= Seq::<LogEntry>::empty() && lg.index_view() =~= Seq::<(u64, usize)>::empty(),
            forall|o: Seq<char>|
                o != name@ ==> #[trigger] spec_mgr_find(final(self).logs_view(), o)
                    == spec_mgr_find(old(self).logs_view(), o),
    {
        let found = self.find_pos(name);
        let key: String = name.to_owned();
        match found {
            Some(t) => {
                let ghost pre = self.logs@;
                let _ = self.logs.remove(t);
                self.logs.insert(t, (key, Log::new()));
                proof {
                    assert(self.logs@ =~= pre.update(t as int, self.logs@[t as int]));
                    lemma_mgr_find_update(pre, t as int, self.logs@[t as int], name@);
                    assert forall|a: int, b: int| 0 <= a < b < self.logs@.len() implies (
                    #[trigger] self.logs@[a]).0@ != (#[trigger] self.logs@[b]).0@ by {
                        assert(self.logs@[a].0@ == pre[a].0@);
                        assert(self.logs@[b].0@ == pre[b].0@);
                    }
                    assert forall|a: int| 0 <= a < self.logs@.len() implies (
                    #[trigger] self.logs@[a]).1.wf() by {
                        if a != t {
                            assert(self.logs@[a] == pre[a]);
                        }
                    }
                }
            },
            None => {
                let ghost pre = self.logs@;
                self.logs.push((key, Log::new()));
                proof {
                    lemma_mgr_find_push(pre, self.logs@[pre.len() as int], name@);
                    lemma_mgr_find_none(pre, name@);
                    assert forall|a: int, b: int| 0 <= a < b < self.logs@.len() implies (
                    #[trigger] self.logs@[a]).0@ != (#[trigger] self.logs@[b]).0@ by {
                        assert(self.logs@[a] == pre[a]);
                        if b < pre.len() {
                            assert(self.logs@[b] == pre[b]);
                        } else {
                            assert(self.logs@[b].0@ == name@);
                            assert(pre[a].0@ != name@);
                        }
                    }
                    assert forall|a: int| 0 <= a < self.logs@.len() implies (
                    #[trigger] self.logs@[a]).1.wf() by {
                        if a < pre.len() {
                            assert(self.logs@[a] == pre[a]);
                        }
                    }
                }
            },
        }
    }

    /// A copy of the log of the given name, if any.
    pub fn get_log(&self, name: &str) -> (res: Option<Log>)
        requires
            self.wf(),
        ensures
            res is Some <==> spec_mgr_find(self.logs_view(), name@) is Some,
            res matches Some(r) ==> spec_mgr_find(self.logs_view(), name@) matches Some(lg)
                && r.wf() && r.index_view() == lg.index_view() && r.entries_view().len()
                == lg.entries_view().len() && (forall|i: int|
                0 <= i < lg.entries_view().len() ==> (#[trigger] r.entries_view()[i]).offset
                    == lg.entries_view()[i].offset && r.entries_view()[i].data@
                    == lg.entries_view()[i].data@),
    {
        match self.find_pos(name) {
            Some(t) => Some(self.logs[t].1.duplicate()),
            None => None,
        }
    }

    /// Appends to the log of the given name under the clock's offset; a
    /// name with no log changes nothing.
    pub fn append_to_log(&mut self, name: &str, data: String)
        requires
            old(self).wf(),
        ensures
            final(self).wf(),
            spec_mgr_find(old(self).logs_view(), name@) is None ==> final(self).logs_view() == old(
                self,
            ).logs_view(),
            spec_mgr_find(old(self).logs_view(), name@) matches Some(lg) ==> (spec_mgr_find(
                final(self).logs_view(),
                name@,
            ) matches Some(lg2) && appended_under(
                lg2.entries_view(),
                lg2.index_view(),
                lg.entries_view(),
                lg.index_view(),
                data,
            )) && (forall|o: Seq<char>|
                o != name@ ==> #[trigger] spec_mgr_find(final(self).logs_view(), o)
                    == spec_mgr_find(old(self).logs_view(), o)),
    {
        let found = self.find_pos(name);
        match found {
            Some(t) => {
                let ghost pre = self.logs@;
                let (key, mut lg) = self.logs.remove(t);
                let ghost lgold = lg;
                let ghost dsnap = data;
                lg.append(data);
                let ghost lgnew = lg;
                self.logs.insert(t, (key, lg));
                proof {
                    assert(self.logs@ =~= pre.update(t as int, self.logs@[t as int]));
                    assert(self.logs@[t as int].0@ == name@);
                    assert(self.logs@[t as int].1 == lgnew);
                    assert(lgold == pre[t as int].1);
                    lemma_mgr_find_update(pre, t as int, self.logs@[t as int], name@);
                    assert(appended_under(
                        lgnew.entries_view(),
                        lgnew.index_view(),
                        lgold.entries_view(),
                        lgold.index_view(),
                        dsnap,
                    ));
                    assert forall|a: int, b: int| 0 <= a < b < self.logs@.len() implies (
                    #[trigger] self.logs@[a]).0@ != (#[trigger] self.logs@[b]).0@ by {
                        assert(self.logs@[a].0@ == pre[a].0@);
                        assert(self.logs@[b].0@ == pre[b].0@);
                    }
                    assert forall|a: int| 0 <= a < self.logs@.len() implies (
                    #[trigger] self.logs@[a]).1.wf() by {
                        if a != t {
                            assert(self.logs@[a] == pre[a]);
                        }
                    }
                }
            },
            None => {},
        }
    }

    /// Reads one record from the log of the given name; a name with no log
    /// yields nothing.
    pub fn get_from_log(&self, name: &str, offset: u64) -> (res: Option<LogEntry>)
        requires
            self.wf(),
        ensures
            spec_mgr_find(self.logs_view(), name@) is None ==> res is None,
            spec_mgr_find(self.logs_view(), name@) matches Some(lg) ==> {
                &&& res is Some <==> spec_lookup_off(lg.index_view(), offset) is Some
                &&& res matches Some(e) ==> (spec_lookup_off(lg.index_view(), offset)
                    matches Some(p) && e.offset == offset && e.data@ == lg.entries_view()[
                    p as int
                ].data@)
            },
    {
        match self.find_pos(name) {
            Some(t) => self.logs[t].1.get(offset),
            None => None,
        }
    }

    /// Reads a range of records from the log of the given name; a name
    /// with no log yields an empty range.
    pub fn get_range_from_log(&self, name: &str, start: u64, end: u64) -> (res: Vec<LogEntry>)
        requires
            self.wf(),
        ensures
            spec_mgr_find(self.logs_view(), name@) is None ==> res@.len() == 0,
            spec_mgr_find(self.logs_view(), name@) matches Some(lg) ==> {
                let sel = spec_range_sel(lg.index_view(), start, end);
                &&& res@.len() == sel.len()
                &&& forall|i: int|
                    0 <= i < sel.len() ==> (#[trigger] res@[i]).offset == sel[i].0 && res@[i].data@
                        == lg.entries_view()[sel[i].1 as int].data@
            },
    {
        match self.find_pos(name) {
            Some(t) => self.logs[t].1.get_range(start, end),
            None => Vec::new(),
        }
    }
}

/// Replacing the element whose name is looked up changes only that name's
/// binding.
proof fn lemma_mgr_find_update(ls: Seq<(String, Log)>, t: int, elem: (String, Log), name: Seq<char>)
    requires
        0 <= t < ls.len(),
        ls[t].0@ == name,
        elem.0@ == name,
        forall|a: int, b: int| 0 <= a < b < ls.len() ==> (#[trigger] ls[a]).0@ != (#[trigger] ls[b]).0@,
    ensures
        spec_mgr_find(ls.update(t, elem), name) == Some(elem.1),
        forall|o: Seq<char>|
            o != name ==> #[trigger] spec_mgr_find(ls.update(t, elem), o) == spec_mgr_find(ls, o),
    decreases ls.len(),
{
    let upd = ls.update(t, elem);
    if t == 0 {
        assert(upd[0] == elem);
        assert(upd.drop_first() =~= ls.drop_first());
        assert forall|o: Seq<char>| o != name implies #[trigger] spec_mgr_find(upd, o)
            == spec_mgr_find(ls, o) by {
            assert(spec_mgr_find(upd, o) == spec_mgr_find(ls.drop_first(), o));
            assert(spec_mgr_find(ls, o) == spec_mgr_find(ls.drop_first(), o));
        }
    } else {
        assert(upd[0] == ls[0]);
        assert(ls[0].0@ != name);
        assert(upd.drop_first() =~= ls.drop_first().update(t - 1, elem));
        assert(forall|a: int, b: int|
            0 <= a < b < ls.drop_first().len() ==> (#[trigger] ls.drop_first()[a]).0@ != (
            #[trigger] ls.drop_first()[b]).0@);
        lemma_mgr_find_update(ls.drop_first(), t - 1, elem, name);
        assert(spec_mgr_find(upd, name) == spec_mgr_find(ls.drop_first().update(t - 1, elem), name));
        assert forall|o: Seq<char>| o != name implies #[trigger] spec_mgr_find(upd, o)
            == spec_mgr_find(ls, o) by {
            if ls[0].0@ == o {
                assert(spec_mgr_find(upd, o) == Some(ls[0].1));
                assert(spec_mgr_find(ls, o) == Some(ls[0].1));
            } else {
                assert(spec_mgr_find(upd, o) == spec_mgr_find(
                    ls.drop_first().update(t - 1, elem),
                    o,
                ));
                assert(spec_mgr_find(ls, o) == spec_mgr_find(ls.drop_first(), o));
            }
        }
    }
}

/// A name that is not found is not anywhere in the list.
proof fn lemma_mgr_find_none(ls: Seq<(String, Log)>, name: Seq<char>)
    requires
        spec_mgr_find(ls, name) is None,
    ensures
        forall|a: int| 0 <= a < ls.len() ==> (#[trigger] ls[a]).0@ != name,
    decreases ls.len(),
{
    if ls.len() > 0 {
        lemma_mgr_find_none(ls.drop_first(), name);
        assert forall|a: int| 0 <= a < ls.len() implies (#[trigger] ls[a]).0@ != name by {
            if a > 0 {
                assert(ls.drop_first()[a - 1] == ls[a]);
            }
        }
    }
}

/// Appending a fresh name binds it and changes no other name's binding.
proof fn lemma_mgr_find_push(ls: Seq<(String, Log)>, elem: (String, Log), name: Seq<char>)
    requires
        elem.0@ == name,
        spec_mgr_find(ls, name) is None,
    ensures
        spec_mgr_find(ls.push(elem), name) == Some(elem.1),
        forall|o: Seq<char>|
            o != name ==> #[trigger] spec_mgr_find(ls.push(elem), o) == spec_mgr_find(ls, o),
    decreases ls.len(),
{
    let p = ls.push(elem);
    if ls.len() == 0 {
        assert(p[0] == elem);
        assert(p.drop_first() =~= Seq::<(String, Log)>::empty());
        assert forall|o: Seq<char>| o != name implies #[trigger] spec_mgr_find(p, o)
            == spec_mgr_find(ls, o) by {
            assert(spec_mgr_find(p, o) == spec_mgr_find(p.drop_first(), o));
        }
    } else {
        assert(p[0] == ls[0]);
        assert(p.drop_first() =~= ls.drop_first().push(elem));
        assert(ls[0].0@ != name);
        lemma_mgr_find_push(ls.drop_first(), elem, name);
        assert forall|o: Seq<char>| o != name implies #[trigger] spec_mgr_find(p, o)
            == spec_mgr_find(ls, o) by {
            if ls[0].0@ == o {
                assert(spec_mgr_find(p, o) == Some(ls[0].1));
                assert(spec_mgr_find(ls, o) == Some(ls[0].1));
            } else {
                assert(spec_mgr_find(p, o) == spec_mgr_find(ls.drop_first().push(elem), o));
                assert(spec_mgr_find(ls, o) == spec_mgr_find(ls.drop_first(), o));
            }
        }
    }
}

} // verus!
