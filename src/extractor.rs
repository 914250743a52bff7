//! The streaming context-window extractor: it takes the lines of one source
//! one at a time and hands out each match record as soon as its window is
//! complete.
use vstd::prelude::*;
use std::collections::VecDeque;
use crate::matcher::{record_views, ACMatcher, MatchInfo};
use crate::model::{
    context_of, lemma_context_len, lemma_records_grow, lemma_strs_push, lemma_strs_take,
    lemma_records_shape, record_at, records, records_upto, strs, window_full, window_start,
    MatcherSpec, RecordView,
};

verus! {

/// The number of lines that the trailing buffer holds once `n` lines are known.
pub open spec fn trailing_len(n: int, radius: nat) -> int {
    if n >= radius {
        radius as int
    } else {
        n
    }
}

/// Per-source state: the last `radius` lines, and the open windows in the
/// order of their trigger lines.
pub struct ContextExtractor {
    source: usize,
    line_count: usize,
    trailing: VecDeque<String>,
    pending: VecDeque<MatchInfo>,
    seen: Ghost<Seq<Seq<char>>>,
    emitted: Ghost<nat>,
}

impl ContextExtractor {
    /// The lines fed so far.
    pub closed spec fn lines(&self) -> Seq<Seq<char>> {
        self.seen@
    }

    /// How many records have been handed out so far.
    pub closed spec fn emitted(&self) -> nat {
        self.emitted@
    }

    /// The source that the records are tagged with.
    pub closed spec fn source(&self) -> usize {
        self.source
    }

    /// The state agrees with the lines fed so far: the trailing buffer holds
    /// the last lines, the records handed out are exactly those whose window
    /// is complete, and the open windows are the others, in order.
    pub closed spec fn wf(&self, m: MatcherSpec) -> bool {
        let n = self.seen@.len() as int;
        let all = records(m, self.source, self.seen@);
        &&& self.line_count == n
        &&& strs(self.trailing@) == self.seen@.subrange(n - trailing_len(n, m.radius), n)
        &&& self.emitted@ <= all.len()
        &&& record_views(self.pending@) == all.skip(self.emitted@ as int)
        &&& forall|k: int|
            #![trigger all[k]]
            0 <= k < all.len() ==> (window_full(all[k].line_no - 1, m.radius, n) <==> k
                < self.emitted@)
    }

    /// An extractor for `source` that has seen no line.
    pub fn new(source: usize) -> (e: Self)
        ensures
            e.lines() == Seq::<Seq<char>>::empty(),
            e.emitted() == 0,
            e.source() == source,
            forall|m: MatcherSpec| #[trigger] e.wf(m),
    {
        let e = ContextExtractor {
            source,
            line_count: 0,
            trailing: VecDeque::new(),
            pending: VecDeque::new(),
            seen: Ghost(Seq::empty()),
            emitted: Ghost(0),
        };
        assert forall|m: MatcherSpec| #[trigger] e.wf(m) by {
            assert(strs(e.trailing@) =~= e.seen@.subrange(0, 0));
            assert(record_views(e.pending@) =~= records(m, source, e.seen@).skip(0));
        }
        e
    }

    /// Takes the next line of the source. Every open window takes the line;
    /// the line opens a window of its own when some pattern matches it; the
    /// records whose windows are now complete are returned, in line order.
    pub fn feed(&mut self, m: &ACMatcher, line: String) -> (out: Vec<MatchInfo>)
        requires
            old(self).wf(m.spec()),
            old(self).lines().len() < usize::MAX,
        ensures
            final(self).wf(m.spec()),
            final(self).lines() == old(self).lines().push(line@),
            final(self).source() == old(self).source(),
            old(self).emitted() <= final(self).emitted(),
            final(self).emitted() <= records(m.spec(), final(self).source(), final(self).lines()).len(),
            forall|k: int|
                #![trigger records(m.spec(), final(self).source(), final(self).lines())[k]]
                0 <= k < records(m.spec(), final(self).source(), final(self).lines()).len() ==> (k
                    < final(self).emitted() <==> window_full(
                    records(m.spec(), final(self).source(), final(self).lines())[k].line_no - 1,
                    m.spec().radius,
                    final(self).lines().len() as int,
                )),
            records(m.spec(), final(self).source(), final(self).lines()).take(
                old(self).emitted() as int,
            ) == records(m.spec(), old(self).source(), old(self).lines()).take(
                old(self).emitted() as int,
            ),
            record_views(out@) == records(m.spec(), final(self).source(), final(self).lines()).subrange(
                old(self).emitted() as int,
                final(self).emitted() as int,
            ),
    {
        let ghost ms = m.spec();
        let ghost r = ms.radius;
        let ghost src = self.source;
        let ghost seen = self.seen@;
        let ghost n = seen.len() as int;
        let ghost seen2 = seen.push(line@);
        let ghost all = records(ms, src, seen);
        let ghost e0 = self.emitted@;
        let ghost grown = records_upto(ms, src, seen2, n);
        proof {
            lemma_records_grow(ms, src, seen, line@, n);
            lemma_records_shape(ms, src, seen, n);
            lemma_records_shape(ms, src, seen2, n + 1);
            assert forall|k: int| 0 <= k < all.len() implies grown[k].line_no == all[k].line_no
                && (k < e0 ==> grown[k] == all[k]) && (k >= e0 ==> grown[k] == (RecordView {
                source: all[k].source,
                line_no: all[k].line_no,
                keywords: all[k].keywords,
                context: all[k].context.push(line@),
            })) by {}
        }

        // Every open window takes the new line.
        let cnt = self.pending.len();
        let ghost pend0 = self.pending@;
        let mut j: usize = 0;
        while j < cnt
            invariant
                self.source == src,
                self.line_count == old(self).line_count,
                self.trailing == old(self).trailing,
                self.seen == old(self).seen,
                self.emitted == old(self).emitted,
                pend0 == old(self).pending@,
                j <= cnt,
                cnt == pend0.len(),
                self.pending@.len() == cnt,
                forall|k: int| 0 <= k < cnt - j ==> self.pending@[k] == pend0[k + j],
                forall|k: int|
                    0 <= k < j ==> (#[trigger] self.pending@[cnt - j + k])@ == (RecordView {
                        source: pend0[k]@.source,
                        line_no: pend0[k]@.line_no,
                        keywords: pend0[k]@.keywords,
                        context: pend0[k]@.context.push(line@),
                    }),
            decreases cnt - j,
        {
            let ghost before = self.pending@;
            match self.pending.pop_front() {
                Some(w) => {
                    let mut w = w;
                    let ghost wv = w@;
                    w.context.push(line.clone());
                    assert(strs(w.context@) =~= wv.context.push(line@));
                    self.pending.push_back(w);
                    proof {
                        assert forall|k: int| 0 <= k < j + 1 implies (#[trigger] self.pending@[cnt
                            - (j + 1) + k])@ == (RecordView {
                            source: pend0[k]@.source,
                            line_no: pend0[k]@.line_no,
                            keywords: pend0[k]@.keywords,
                            context: pend0[k]@.context.push(line@),
                        }) by {
                            if k < j {
                                assert(self.pending@[cnt - (j + 1) + k] == before[cnt - j + k]);
                            }
                        }
                    }
                },
                None => {},
            }
            j += 1;
        }
        assert(record_views(pend0).len() == all.len() - e0);
        assert(record_views(self.pending@) =~= grown.skip(e0 as int)) by {
            assert forall|k: int| 0 <= k < cnt implies self.pending@[k]@ == grown[e0 + k] by {
                assert(self.pending@[cnt - cnt + k] == self.pending@[k]);
                assert(record_views(pend0)[k] == pend0[k]@);
                assert(pend0[k]@ == all[e0 + k]);
            }
        }
        proof {
            assert(seen2.subrange(0, n) =~= seen);
        }

        // The line opens a window when some pattern matches it.
        let ids = m.scan(line.as_str());
        if ids.len() > 0 {
            let keywords = m.keywords_for(&ids);
            let mut context: Vec<String> = Vec::new();
            let tl = self.trailing.len();
            let mut t: usize = 0;
            while t < tl
                invariant
                    t <= tl,
                    tl == self.trailing@.len(),
                    strs(context@) == strs(self.trailing@.take(t as int)),
                decreases tl - t,
            {
                proof {
                    lemma_strs_push(context@, self.trailing@[t as int]);
                    lemma_strs_take(self.trailing@, t as int);
                    lemma_strs_take(self.trailing@, t as int + 1);
                    assert(self.trailing@.take(t as int + 1) =~= self.trailing@.take(t as int).push(
                        self.trailing@[t as int],
                    ));
                    lemma_strs_push(self.trailing@.take(t as int), self.trailing@[t as int]);
                }
                context.push(self.trailing[t].clone());
                t += 1;
            }
            assert(self.trailing@.take(tl as int) =~= self.trailing@);
            let ghost c1 = context@;
            context.push(line.clone());
            let w = MatchInfo { source: self.source, line_no: self.line_count + 1, keywords, context };
            proof {
                assert(seen2[n] == line@);
                assert(strs(context@) =~= strs(c1).push(line@));
                assert(context_of(seen2, n, r) =~= seen.subrange(n - trailing_len(n, r), n).push(line@));
                assert(w@ == record_at(ms, src, seen2, n));
            }
            let ghost p1 = self.pending@;
            self.pending.push_back(w);
            assert(record_views(self.pending@) =~= record_views(p1).push(w@));
        }
        let ghost all2 = records(ms, src, seen2);
        assert(record_views(self.pending@) =~= all2.skip(e0 as int));
        assert(all2.take(e0 as int) =~= all.take(e0 as int));

        // Hand out the windows that are now complete.
        let rad = m.radius();
        let mut out: Vec<MatchInfo> = Vec::new();
        let ghost mut e: int = e0 as int;
        let mut go = true;
        while go
            invariant
                self.source == src,
                self.line_count == old(self).line_count,
                self.trailing == old(self).trailing,
                self.seen == old(self).seen,
                e0 <= e <= all2.len(),
                record_views(self.pending@) == all2.skip(e),
                record_views(out@) == all2.subrange(e0 as int, e),
                forall|k: int| 0 <= k < e ==> window_full(#[trigger] all2[k].line_no - 1, r, n + 1),
                !go ==> e == all2.len() || !window_full(all2[e].line_no - 1, r, n + 1),
                rad as nat == r,
                r == ms.radius,
                ms == m.spec(),
                forall|k: int| 0 <= k < e0 ==> window_full(#[trigger] all[k].line_no - 1, r, n),
                forall|k: int| 0 <= k < all.len() ==> #[trigger] all2[k].line_no == all[k].line_no,
                all.len() <= all2.len(),
                forall|k: int|
                    #![trigger all2[k]]
                    0 <= k < all2.len() ==> 1 <= all2[k].line_no <= n + 1 && all2[k]
                        == record_at(ms, src, seen2, all2[k].line_no - 1),
                seen2.len() == n + 1,
            decreases self.pending@.len() + (if go { 1int } else { 0int }),
        {
            if self.pending.len() == 0 {
                go = false;
            } else {
                let c = self.pending[0].context.len();
                proof {
                    assert(record_views(self.pending@).len() > 0);
                    assert(record_views(self.pending@)[0] == self.pending@[0]@);
                    assert(self.pending@[0]@ == all2[e]);
                    lemma_context_len(seen2, all2[e].line_no - 1, r);
                }
                let ghost old_pending = self.pending@;
                assert(c == strs(self.pending@[0].context@).len());
                assert(c == all2[e].context.len());
                assert(0 <= e < all2.len());
                assert(all2[e] == record_at(ms, src, seen2, all2[e].line_no - 1));
                assert(all2[e].context == context_of(seen2, all2[e].line_no - 1, r));
                if c > rad && c - 1 - rad == rad {
                    match self.pending.pop_front() {
                        Some(w) => {
                            let ghost o = out@;
                            let ghost pb = record_views(old_pending);
                            assert(window_full(all2[e].line_no - 1, r, n + 1));
                            out.push(w);
                            assert(record_views(out@) =~= record_views(o).push(w@));
                            proof {
                                e = e + 1;
                            }
                            assert forall|k: int| 0 <= k < record_views(self.pending@).len()
                                implies record_views(self.pending@)[k] == all2.skip(e)[k] by {
                                assert(record_views(self.pending@)[k] == pb[k + 1]);
                            }
                            assert(record_views(self.pending@) =~= all2.skip(e));
                            assert(record_views(out@) =~= all2.subrange(e0 as int, e));
                        },
                        None => {},
                    }
                } else {
                    go = false;
                }
            }
        }
        proof {
            assert forall|k: int| 0 <= k < all2.len() implies (window_full(
                #[trigger] all2[k].line_no - 1,
                r,
                n + 1,
            ) <==> k < e) by {
                if k >= e {
                    assert(all2[e].line_no <= all2[k].line_no);
                    assert(window_start(all2[e].line_no - 1, r) <= window_start(all2[k].line_no - 1, r));
                }
            }
        }

        // The line joins the trailing buffer.
        let ghost tr0 = self.trailing@;
        assert(strs(tr0) == seen.subrange(n - trailing_len(n, r), n));
        proof {
            lemma_strs_push(tr0, line);
        }
        self.trailing.push_back(line);
        let ghost tr1 = self.trailing@;
        assert(strs(tr1) =~= seen2.subrange(n - trailing_len(n, r), n + 1));
        if self.trailing.len() > rad {
            let _ = self.trailing.pop_front();
            assert(strs(self.trailing@) =~= strs(tr1).subrange(1, tr1.len() as int));
        }
        proof {
            let n2 = n + 1;
            assert(strs(self.trailing@) =~= seen2.subrange(n2 - trailing_len(n2, r), n2));
        }
        self.line_count = self.line_count + 1;
        self.seen = Ghost(seen2);
        self.emitted = Ghost(e as nat);
        out
    }

    /// Ends the source: the windows still open are returned as they stand,
    /// in line order.
    pub fn finish(self, m: &ACMatcher) -> (out: Vec<MatchInfo>)
        requires
            self.wf(m.spec()),
        ensures
            record_views(out@) == records(m.spec(), self.source(), self.lines()).skip(
                self.emitted() as int,
            ),
    {
        let mut pending = self.pending;
        let ghost rest = records(m.spec(), self.source, self.seen@).skip(self.emitted@ as int);
        let mut out: Vec<MatchInfo> = Vec::new();
        let ghost mut k: int = 0;
        while pending.len() > 0
            invariant
                0 <= k <= rest.len(),
                record_views(pending@) == rest.skip(k),
                record_views(out@) == rest.take(k),
            decreases pending@.len(),
        {
            let ghost pb = record_views(pending@);
            match pending.pop_front() {
                Some(w) => {
                    let ghost o = out@;
                    assert(pb[0] == w@);
                    assert(pb.len() == pending@.len() + 1);
                    assert(pb == rest.skip(k));
                    assert(pb[0] == rest[k]);
                    out.push(w);
                    proof {
                        k = k + 1;
                    }
                    assert(record_views(out@) =~= record_views(o).push(w@));
                    assert(record_views(out@) =~= rest.take(k));
                    assert forall|i: int| 0 <= i < record_views(pending@).len() implies record_views(
                        pending@,
                    )[i] == rest.skip(k)[i] by {
                        assert(record_views(pending@)[i] == pb[i + 1]);
                        assert(pb[i + 1] == rest[k + i]);
                    }
                    assert(record_views(pending@) =~= rest.skip(k));
                },
                None => {},
            }
        }
        assert(rest.take(k) =~= rest);
        out
    }
}

} // verus!
