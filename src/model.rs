//! The mathematical model of a search: which lines trigger, which keywords
//! they carry, and which context lines surround them.
use vstd::prelude::*;

verus! {

/// What a search is configured with: the pattern list, the case flag and the
/// context radius.
pub struct MatcherSpec {
    pub patterns: Seq<Seq<char>>,
    pub ignore_case: bool,
    pub radius: nat,
}

/// The abstract form of one match record.
pub struct RecordView {
    pub source: usize,
    pub line_no: int,
    pub keywords: Seq<Seq<char>>,
    pub context: Seq<Seq<char>>,
}

/// The text of each string in a sequence.
pub open spec fn strs(v: Seq<String>) -> Seq<Seq<char>> {
    v.map_values(|s: String| s@)
}

/// A character as compared by the matcher: ASCII letters are folded to lower
/// case when `ignore_case` holds; every other character stands for itself.
pub open spec fn fold_char(c: char, ignore_case: bool) -> u32 {
    if ignore_case && 'A' <= c && c <= 'Z' {
        (c as u32 + 32) as u32
    } else {
        c as u32
    }
}

/// `pat` occurs in `line` at position `j`.
pub open spec fn occurs_at(pat: Seq<char>, line: Seq<char>, j: int, ignore_case: bool) -> bool {
    &&& 0 <= j
    &&& j + pat.len() <= line.len()
    &&& forall|t: int|
        0 <= t < pat.len() ==> fold_char(#[trigger] line[j + t], ignore_case) == fold_char(
            pat[t],
            ignore_case,
        )
}

/// `pat` occurs somewhere in `line`.
pub open spec fn occurs_in(pat: Seq<char>, line: Seq<char>, ignore_case: bool) -> bool {
    exists|j: int| occurs_at(pat, line, j, ignore_case)
}

/// Some pattern of the list occurs in `line`.
pub open spec fn any_occurs(patterns: Seq<Seq<char>>, line: Seq<char>, ignore_case: bool) -> bool {
    exists|p: int| 0 <= p < patterns.len() && occurs_in(#[trigger] patterns[p], line, ignore_case)
}

/// The pattern identities of the leftmost-first, non-overlapping matches of
/// `patterns` in `line`, in the order in which they are found.
pub uninterp spec fn scan_ids(patterns: Seq<Seq<char>>, ignore_case: bool, line: Seq<char>) -> Seq<usize>;

/// Whether the automaton can be built for `patterns` with the given case
/// flag, within its internal limits on states, pattern count and length.
pub uninterp spec fn automaton_builds(patterns: Seq<Seq<char>>, ignore_case: bool) -> bool;

/// Each identity once, at the place of its first occurrence.
pub open spec fn dedup(s: Seq<usize>) -> Seq<usize>
    decreases s.len(),
{
    if s.len() == 0 {
        seq![]
    } else {
        let d = dedup(s.drop_last());
        if d.contains(s.last()) {
            d
        } else {
            d.push(s.last())
        }
    }
}

/// The keywords named by a list of pattern identities, deduplicated, in
/// first-matched order.
pub open spec fn keywords_of(patterns: Seq<Seq<char>>, ids: Seq<usize>) -> Seq<Seq<char>> {
    dedup(ids).map_values(|i: usize| patterns[i as int])
}

/// A line triggers a record: some pattern matches it.
pub open spec fn is_trigger(m: MatcherSpec, line: Seq<char>) -> bool {
    scan_ids(m.patterns, m.ignore_case, line).len() > 0
}

/// First line of the window around the trigger at index `i`: `radius` lines
/// back, or the first line of the source when there are fewer before it.
pub open spec fn window_start(i: int, radius: nat) -> int {
    if i >= radius {
        i - radius
    } else {
        0
    }
}

/// One past the last line of that window once `n` lines are known: the window
/// holds `2 * radius + 1` lines, or stops at the end of the source.
pub open spec fn window_end(i: int, radius: nat, n: int) -> int {
    let e = window_start(i, radius) + 2 * radius + 1;
    if e <= n {
        e
    } else {
        n
    }
}

/// The window around index `i` is complete once `n` lines are known.
pub open spec fn window_full(i: int, radius: nat, n: int) -> bool {
    window_start(i, radius) + 2 * radius + 1 <= n
}

/// The context lines of the trigger at index `i`.
pub open spec fn context_of(lines: Seq<Seq<char>>, i: int, radius: nat) -> Seq<Seq<char>> {
    lines.subrange(window_start(i, radius), window_end(i, radius, lines.len() as int))
}

/// The record of the trigger at index `i` of `lines`.
pub open spec fn record_at(m: MatcherSpec, source: usize, lines: Seq<Seq<char>>, i: int) -> RecordView {
    RecordView {
        source,
        line_no: i + 1,
        keywords: keywords_of(m.patterns, scan_ids(m.patterns, m.ignore_case, lines[i])),
        context: context_of(lines, i, m.radius),
    }
}

/// The records of the triggers among the first `k` lines, in line order.
pub open spec fn records_upto(m: MatcherSpec, source: usize, lines: Seq<Seq<char>>, k: int) -> Seq<
    RecordView,
>
    decreases k,
{
    if k <= 0 {
        seq![]
    } else {
        let prev = records_upto(m, source, lines, k - 1);
        if is_trigger(m, lines[k - 1]) {
            prev.push(record_at(m, source, lines, k - 1))
        } else {
            prev
        }
    }
}

/// The records of a whole source, in line order.
pub open spec fn records(m: MatcherSpec, source: usize, lines: Seq<Seq<char>>) -> Seq<RecordView> {
    records_upto(m, source, lines, lines.len() as int)
}

/// The records of the first `k` sources, source by source; each source is
/// numbered by its position.
pub open spec fn records_many(m: MatcherSpec, sources: Seq<Seq<Seq<char>>>, k: int) -> Seq<
    RecordView,
>
    decreases k,
{
    if k <= 0 || k > sources.len() {
        seq![]
    } else {
        records_many(m, sources, k - 1) + records(m, (k - 1) as usize, sources[k - 1])
    }
}

/// The text of a sequence of strings with one more string at its end.
pub proof fn lemma_strs_push(v: Seq<String>, x: String)
    ensures
        strs(v.push(x)) == strs(v).push(x@),
{
    assert(strs(v.push(x)) =~= strs(v).push(x@));
}

/// The text of a prefix is the prefix of the text.
pub proof fn lemma_strs_take(v: Seq<String>, t: int)
    requires
        0 <= t <= v.len(),
    ensures
        strs(v.take(t)) == strs(v).take(t),
{
    assert(strs(v.take(t)) =~= strs(v).take(t));
}

/// The record of a trigger once one more line is known: a window that was
/// still short takes that line as well.
pub open spec fn grow(a: RecordView, radius: nat, n: int, line: Seq<char>) -> RecordView {
    if window_full(a.line_no - 1, radius, n) {
        a
    } else {
        RecordView {
            source: a.source,
            line_no: a.line_no,
            keywords: a.keywords,
            context: a.context.push(line),
        }
    }
}

/// The context of a trigger spans from its window start to its window end.
pub proof fn lemma_context_len(lines: Seq<Seq<char>>, i: int, radius: nat)
    requires
        0 <= i < lines.len(),
    ensures
        context_of(lines, i, radius).len() == window_end(i, radius, lines.len() as int)
            - window_start(i, radius),
        context_of(lines, i, radius).len() <= 2 * radius + 1,
        context_of(lines, i, radius).len() == 2 * radius + 1 <==> window_full(
            i,
            radius,
            lines.len() as int,
        ),
{
}

/// Each record of the first `k` lines is the record of a trigger line among
/// them, and their line numbers strictly increase.
pub proof fn lemma_records_shape(m: MatcherSpec, source: usize, lines: Seq<Seq<char>>, k: int)
    requires
        0 <= k <= lines.len(),
    ensures
        forall|j: int|
            #![trigger records_upto(m, source, lines, k)[j]]
            0 <= j < records_upto(m, source, lines, k).len() ==> {
                let rec = records_upto(m, source, lines, k)[j];
                &&& 1 <= rec.line_no <= k
                &&& is_trigger(m, lines[rec.line_no - 1])
                &&& rec == record_at(m, source, lines, rec.line_no - 1)
            },
        forall|j1: int, j2: int|
            0 <= j1 < j2 < records_upto(m, source, lines, k).len() ==> records_upto(
                m,
                source,
                lines,
                k,
            )[j1].line_no < records_upto(m, source, lines, k)[j2].line_no,
    decreases k,
{
    if k > 0 {
        lemma_records_shape(m, source, lines, k - 1);
        let prev = records_upto(m, source, lines, k - 1);
        let cur = records_upto(m, source, lines, k);
        assert forall|j: int| 0 <= j < prev.len() implies cur[j] == prev[j] by {}
        assert forall|j1: int, j2: int|
            0 <= j1 < j2 < cur.len() implies cur[j1].line_no < cur[j2].line_no by {
            if j2 >= prev.len() {
                assert(cur[j1] == prev[j1]);
            } else {
                assert(cur[j1] == prev[j1]);
                assert(cur[j2] == prev[j2]);
            }
        }
    }
}

/// Knowing one more line changes the earlier records only by growing the
/// windows that were still short.
pub proof fn lemma_record_grow(
    m: MatcherSpec,
    source: usize,
    lines: Seq<Seq<char>>,
    line: Seq<char>,
    i: int,
)
    requires
        0 <= i < lines.len(),
    ensures
        record_at(m, source, lines.push(line), i) == grow(
            record_at(m, source, lines, i),
            m.radius,
            lines.len() as int,
            line,
        ),
{
    let lines2 = lines.push(line);
    let n = lines.len() as int;
    let s = window_start(i, m.radius);
    assert(lines2[i] == lines[i]);
    if window_full(i, m.radius, n) {
        assert(context_of(lines2, i, m.radius) =~= context_of(lines, i, m.radius));
    } else {
        assert(context_of(lines2, i, m.radius) =~= context_of(lines, i, m.radius).push(line));
    }
}

/// The records of the first `k` lines, once one more line is known.
pub proof fn lemma_records_grow(
    m: MatcherSpec,
    source: usize,
    lines: Seq<Seq<char>>,
    line: Seq<char>,
    k: int,
)
    requires
        0 <= k <= lines.len(),
    ensures
        records_upto(m, source, lines.push(line), k) == records_upto(
            m,
            source,
            lines,
            k,
        ).map_values(|a: RecordView| grow(a, m.radius, lines.len() as int, line)),
    decreases k,
{
    let f = |a: RecordView| grow(a, m.radius, lines.len() as int, line);
    if k <= 0 {
        assert(records_upto(m, source, lines, k).map_values(f) =~= seq![]);
    } else {
        lemma_records_grow(m, source, lines, line, k - 1);
        assert(lines.push(line)[k - 1] == lines[k - 1]);
        let prev = records_upto(m, source, lines, k - 1);
        if is_trigger(m, lines[k - 1]) {
            lemma_record_grow(m, source, lines, line, k - 1);
            assert(prev.push(record_at(m, source, lines, k - 1)).map_values(f) =~= prev.map_values(
                f,
            ).push(f(record_at(m, source, lines, k - 1))));
        }
    }
}

} // verus!
