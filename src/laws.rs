//! General properties of a search, stated over the model and proved.
use vstd::prelude::*;
use crate::matcher::{record_views, MatchInfo};
use crate::model::{
    dedup, is_trigger, keywords_of, lemma_context_len, lemma_records_shape, records,
    records_upto, scan_ids, MatcherSpec,
};

verus! {

/// Every record's context holds at most `2 * radius + 1` lines, and exactly
/// that many when the trigger line has at least `radius` lines before it and
/// after it in its source.
pub proof fn law_context_length(m: MatcherSpec, source: usize, lines: Seq<Seq<char>>)
    ensures
        forall|j: int|
            #![trigger records(m, source, lines)[j]]
            0 <= j < records(m, source, lines).len() ==> {
                let rec = records(m, source, lines)[j];
                &&& rec.context.len() <= 2 * m.radius + 1
                &&& (rec.line_no - 1 >= m.radius && rec.line_no - 1 + m.radius < lines.len())
                    ==> rec.context.len() == 2 * m.radius + 1
            },
{
    lemma_records_shape(m, source, lines, lines.len() as int);
    assert forall|j: int| 0 <= j < records(m, source, lines).len() implies {
        let rec = #[trigger] records(m, source, lines)[j];
        &&& rec.context.len() <= 2 * m.radius + 1
        &&& (rec.line_no - 1 >= m.radius && rec.line_no - 1 + m.radius < lines.len())
            ==> rec.context.len() == 2 * m.radius + 1
    } by {
        let rec = records(m, source, lines)[j];
        lemma_context_len(lines, rec.line_no - 1, m.radius);
    }
}

/// The records of one source come in strictly increasing line order.
pub proof fn law_line_order(m: MatcherSpec, source: usize, lines: Seq<Seq<char>>)
    ensures
        forall|j1: int, j2: int|
            0 <= j1 < j2 < records(m, source, lines).len() ==> records(m, source, lines)[j1].line_no
                < records(m, source, lines)[j2].line_no,
{
    lemma_records_shape(m, source, lines, lines.len() as int);
}

/// Searching the same lines twice gives the same records.
pub proof fn law_deterministic(
    m: MatcherSpec,
    source: usize,
    lines: Seq<Seq<char>>,
    first: Seq<MatchInfo>,
    second: Seq<MatchInfo>,
)
    requires
        record_views(first) == records(m, source, lines),
        record_views(second) == records(m, source, lines),
    ensures
        record_views(first) == record_views(second),
{
}

/// An identity survives deduplication exactly when it was there.
pub proof fn lemma_dedup_contains(s: Seq<usize>, x: usize)
    ensures
        dedup(s).contains(x) <==> s.contains(x),
    decreases s.len(),
{
    if s.len() > 0 {
        let p = s.drop_last();
        let l = s.last();
        let d = dedup(p);
        lemma_dedup_contains(p, x);
        if dedup(s).contains(x) {
            let t = choose|t: int| 0 <= t < dedup(s).len() && dedup(s)[t] == x;
            if t < d.len() {
                assert(d[t] == x);
                assert(d.contains(x));
                let u = choose|u: int| 0 <= u < p.len() && p[u] == x;
                assert(s[u] == x);
            } else {
                assert(x == l);
                assert(s[s.len() - 1] == x);
            }
        }
        if s.contains(x) {
            let t = choose|t: int| 0 <= t < s.len() && s[t] == x;
            if t < p.len() {
                assert(p[t] == x);
                assert(p.contains(x));
                let u = choose|u: int| 0 <= u < d.len() && d[u] == x;
                if !d.contains(l) {
                    assert(d.push(l)[u] == x);
                }
            } else {
                assert(x == l);
                if !d.contains(l) {
                    assert(d.push(l)[d.len() as int] == x);
                }
            }
        }
    }
}

/// Deduplication leaves no identity twice.
pub proof fn lemma_dedup_distinct(s: Seq<usize>)
    ensures
        forall|t1: int, t2: int|
            0 <= t1 < dedup(s).len() && 0 <= t2 < dedup(s).len() && dedup(s)[t1] == dedup(s)[t2]
                ==> t1 == t2,
    decreases s.len(),
{
    if s.len() > 0 {
        let p = s.drop_last();
        let d = dedup(p);
        lemma_dedup_distinct(p);
        if !d.contains(s.last()) {
            assert forall|t1: int, t2: int|
                0 <= t1 < dedup(s).len() && 0 <= t2 < dedup(s).len() && dedup(s)[t1]
                    == dedup(s)[t2] implies t1 == t2 by {
                if t1 < d.len() && t2 == d.len() {
                    assert(d[t1] == s.last());
                } else if t2 < d.len() && t1 == d.len() {
                    assert(d[t2] == s.last());
                }
            }
        }
    }
}

/// A trigger among the first `k` lines has a record.
pub proof fn lemma_trigger_has_record(
    m: MatcherSpec,
    source: usize,
    lines: Seq<Seq<char>>,
    k: int,
    i: int,
)
    requires
        0 <= i < k <= lines.len(),
        is_trigger(m, lines[i]),
    ensures
        exists|j: int|
            0 <= j < records_upto(m, source, lines, k).len() && (#[trigger] records_upto(
                m,
                source,
                lines,
                k,
            )[j]).line_no == i + 1,
    decreases k,
{
    let prev = records_upto(m, source, lines, k - 1);
    if i == k - 1 {
        assert(records_upto(m, source, lines, k)[prev.len() as int].line_no == i + 1);
    } else {
        lemma_trigger_has_record(m, source, lines, k - 1, i);
        let j = choose|j: int| 0 <= j < prev.len() && (#[trigger] prev[j]).line_no == i + 1;
        assert(records_upto(m, source, lines, k)[j] == prev[j]);
    }
}

/// When several patterns match one line, that line has exactly one record,
/// and its keywords hold each of those patterns; when the patterns' texts are
/// distinct, each keyword stands in that list once.
pub proof fn law_one_record_per_line(
    m: MatcherSpec,
    source: usize,
    lines: Seq<Seq<char>>,
    i: int,
    a: usize,
    b: usize,
)
    requires
        0 <= i < lines.len(),
        scan_ids(m.patterns, m.ignore_case, lines[i]).contains(a),
        scan_ids(m.patterns, m.ignore_case, lines[i]).contains(b),
    ensures
        exists|j: int|
            0 <= j < records(m, source, lines).len() && {
                let rec = #[trigger] records(m, source, lines)[j];
                &&& rec.line_no == i + 1
                &&& rec.keywords.contains(m.patterns[a as int])
                &&& rec.keywords.contains(m.patterns[b as int])
                &&& forall|j2: int|
                    0 <= j2 < records(m, source, lines).len() && records(m, source, lines)[j2].line_no
                        == i + 1 ==> j2 == j
                &&& ((forall|p1: int, p2: int|
                    0 <= p1 < m.patterns.len() && 0 <= p2 < m.patterns.len() && p1 != p2
                        ==> m.patterns[p1] != m.patterns[p2]) && (forall|k: int|
                    0 <= k < scan_ids(m.patterns, m.ignore_case, lines[i]).len() ==> (scan_ids(
                        m.patterns,
                        m.ignore_case,
                        lines[i],
                    )[k] as int) < m.patterns.len())) ==> forall|t1: int, t2: int|
                    0 <= t1 < rec.keywords.len() && 0 <= t2 < rec.keywords.len()
                        && rec.keywords[t1] == rec.keywords[t2] ==> t1 == t2
            },
{
    let n = lines.len() as int;
    let all = records(m, source, lines);
    let ids = scan_ids(m.patterns, m.ignore_case, lines[i]);
    lemma_records_shape(m, source, lines, n);
    lemma_trigger_has_record(m, source, lines, n, i);
    let j = choose|j: int| 0 <= j < all.len() && (#[trigger] all[j]).line_no == i + 1;
    let rec = all[j];
    assert(rec.keywords == keywords_of(m.patterns, ids));
    lemma_dedup_contains(ids, a);
    lemma_dedup_contains(ids, b);
    let ta = choose|t: int| 0 <= t < dedup(ids).len() && dedup(ids)[t] == a;
    let tb = choose|t: int| 0 <= t < dedup(ids).len() && dedup(ids)[t] == b;
    assert(rec.keywords[ta] == m.patterns[a as int]);
    assert(rec.keywords[tb] == m.patterns[b as int]);
    let distinct = forall|p1: int, p2: int|
        0 <= p1 < m.patterns.len() && 0 <= p2 < m.patterns.len() && p1 != p2 ==> m.patterns[p1]
            != m.patterns[p2];
    let valid = forall|k: int| 0 <= k < ids.len() ==> (ids[k] as int) < m.patterns.len();
    if distinct && valid {
        lemma_dedup_distinct(ids);
        assert forall|t1: int, t2: int|
            0 <= t1 < rec.keywords.len() && 0 <= t2 < rec.keywords.len() && rec.keywords[t1]
                == rec.keywords[t2] implies t1 == t2 by {
            let d = dedup(ids);
            lemma_dedup_contains(ids, d[t1]);
            lemma_dedup_contains(ids, d[t2]);
            assert(d.contains(d[t1]));
            assert(d.contains(d[t2]));
            let k1 = choose|k: int| 0 <= k < ids.len() && ids[k] == d[t1];
            let k2 = choose|k: int| 0 <= k < ids.len() && ids[k] == d[t2];
            assert(rec.keywords[t1] == m.patterns[d[t1] as int]);
            assert(rec.keywords[t2] == m.patterns[d[t2] as int]);
            if d[t1] != d[t2] {
                assert(m.patterns[d[t1] as int] != m.patterns[d[t2] as int]);
            }
        }
    }
    assert forall|j2: int|
        0 <= j2 < all.len() && all[j2].line_no == i + 1 implies j2 == j by {
        if j2 < j {
            assert(all[j2].line_no < all[j].line_no);
        } else if j2 > j {
            assert(all[j].line_no < all[j2].line_no);
        }
    }
}

} // verus!
