//! The pattern automaton and the match record it produces.
use vstd::prelude::*;
use aho_corasick::{AhoCorasick, BuildError, MatchKind};
use crate::extractor::ContextExtractor;
use crate::model::{
    any_occurs, automaton_builds, dedup, is_trigger, keywords_of, occurs_in, records, records_many, scan_ids, strs,
    MatcherSpec, RecordView,
};

verus! {

/// aho_corasick's compiled automaton, carried opaquely inside `ACMatcher`.
#[verifier::external_type_specification]
#[verifier::external_body]
pub struct ExAhoCorasick(AhoCorasick);

/// aho_corasick's build error, mapped to `MatchError::PatternCompile`.
#[verifier::external_type_specification]
#[verifier::external_body]
pub struct ExBuildError(BuildError);

/// Why a matcher could not be built.
#[derive(Clone, Copy, Debug, PartialEq, Eq, Structural)]
pub enum MatchError {
    /// No pattern was given.
    EmptyPatternSet,
    /// The automaton could not represent the pattern set.
    PatternCompile,
}

/// One match record: a trigger line of a source, the keywords found on it and
/// the lines around it.
#[derive(Clone, Debug)]
pub struct MatchInfo {
    pub source: usize,
    pub line_no: usize,
    pub keywords: Vec<String>,
    pub context: Vec<String>,
}

impl View for MatchInfo {
    type V = RecordView;

    open spec fn view(&self) -> RecordView {
        RecordView {
            source: self.source,
            line_no: self.line_no as int,
            keywords: strs(self.keywords@),
            context: strs(self.context@),
        }
    }
}

/// The text of each source of a list of sources.
pub open spec fn sources_view(sources: Seq<Vec<String>>) -> Seq<Seq<Seq<char>>> {
    sources.map_values(|v: Vec<String>| strs(v@))
}

/// The records of a list of match records.
pub open spec fn record_views(v: Seq<MatchInfo>) -> Seq<RecordView> {
    v.map_values(|r: MatchInfo| r@)
}

/// The records of two lists of match records, one after the other.
pub proof fn lemma_record_views_add(a: Seq<MatchInfo>, b: Seq<MatchInfo>)
    ensures
        record_views(a + b) == record_views(a) + record_views(b),
{
    assert forall|i: int| 0 <= i < a.len() + b.len() implies record_views(a + b)[i] == (
    record_views(a) + record_views(b))[i] by {
        if i < a.len() {
            assert((a + b)[i] == a[i]);
        } else {
            assert((a + b)[i] == b[i - a.len()]);
        }
    }
    assert(record_views(a + b) =~= record_views(a) + record_views(b));
}

/// A compiled pattern set with its case flag and context radius. It is never
/// changed after it is built and can be shared between threads.
pub struct ACMatcher {
    ac: AhoCorasick,
    patterns: Vec<String>,
    ignore_case: bool,
    radius: usize,
}

/// Relies on aho_corasick's `AhoCorasickBuilder::build`, configured with
/// leftmost-first matching and the given ASCII case flag. It fails only when
/// an internal limit (state, pattern or pattern-length identities) overflows,
/// which depends on the patterns and the flag alone.
#[verifier::external_body]
fn build_automaton(patterns: &Vec<String>, ignore_case: bool) -> (r: Result<AhoCorasick, BuildError>)
    ensures
        r is Ok <==> automaton_builds(strs(patterns@), ignore_case),
{
    AhoCorasick::builder()
        .match_kind(MatchKind::LeftmostFirst)
        .ascii_case_insensitive(ignore_case)
        .build(patterns)
}

impl ACMatcher {
    /// The configuration this matcher searches with.
    pub closed spec fn spec(&self) -> MatcherSpec {
        MatcherSpec {
            patterns: strs(self.patterns@),
            ignore_case: self.ignore_case,
            radius: self.radius as nat,
        }
    }

    /// Builds a matcher. Fails with `EmptyPatternSet` exactly when no pattern
    /// is given, and with `PatternCompile` exactly when the automaton cannot
    /// hold the pattern set; otherwise it succeeds.
    pub fn new(patterns: Vec<String>, ignore_case: bool, radius: usize) -> (r: Result<ACMatcher, MatchError>)
        ensures
            patterns@.len() == 0 <==> r == Err::<ACMatcher, MatchError>(MatchError::EmptyPatternSet),
            r is Ok <==> (patterns@.len() > 0 && automaton_builds(strs(patterns@), ignore_case)),
            r == Err::<ACMatcher, MatchError>(MatchError::PatternCompile) <==> (patterns@.len() > 0
                && !automaton_builds(strs(patterns@), ignore_case)),
            r matches Ok(m) ==> m.spec() == (MatcherSpec {
                patterns: strs(patterns@),
                ignore_case,
                radius: radius as nat,
            }),
    {
        if patterns.len() == 0 {
            return Err(MatchError::EmptyPatternSet);
        }
        match build_automaton(&patterns, ignore_case) {
            Ok(ac) => Ok(ACMatcher { ac, patterns, ignore_case, radius }),
            Err(_) => Err(MatchError::PatternCompile),
        }
    }

    /// The context radius.
    pub fn radius(&self) -> (r: usize)
        ensures
            r as nat == self.spec().radius,
    {
        self.radius
    }

    /// Whether `line` opens a window: some pattern matches it, ASCII letters
    /// compared without regard to case when the case flag is set.
    pub fn matches_line(&self, line: &str) -> (r: bool)
        ensures
            r == is_trigger(self.spec(), line@),
            r <==> any_occurs(self.spec().patterns, line@, self.spec().ignore_case),
    {
        let ids = self.scan(line);
        if ids.len() > 0 {
            assert(occurs_in(
                self.spec().patterns[ids@[0] as int],
                line@,
                self.spec().ignore_case,
            ));
        }
        ids.len() > 0
    }

    /// The keywords that a list of pattern identities names: each pattern
    /// once, in the order of its first match.
    pub fn keywords_for(&self, ids: &Vec<usize>) -> (r: Vec<String>)
        requires
            forall|k: int| 0 <= k < ids@.len() ==> (ids@[k] as int) < self.spec().patterns.len(),
        ensures
            strs(r@) == keywords_of(self.spec().patterns, ids@),
    {
        let ghost pats = self.spec().patterns;
        let mut taken: Vec<usize> = Vec::new();
        let mut out: Vec<String> = Vec::new();
        let mut i: usize = 0;
        while i < ids.len()
            invariant
                pats == self.spec().patterns,
                pats == strs(self.patterns@),
                i <= ids.len(),
                taken@ == dedup(ids@.take(i as int)),
                strs(out@) == taken@.map_values(|j: usize| pats[j as int]),
                forall|k: int| 0 <= k < ids@.len() ==> (ids@[k] as int) < pats.len(),
                forall|k: int| 0 <= k < taken@.len() ==> (taken@[k] as int) < pats.len(),
            decreases ids.len() - i,
        {
            let id = ids[i];
            let mut found = false;
            let mut j: usize = 0;
            while j < taken.len()
                invariant
                    j <= taken.len(),
                    found <==> exists|t: int| 0 <= t < j && taken@[t] == id,
                decreases taken.len() - j,
            {
                if taken[j] == id {
                    found = true;
                }
                j += 1;
            }
            let ghost pre = ids@.take(i as int + 1);
            assert(pre.drop_last() == ids@.take(i as int));
            assert(pre.last() == id);
            assert(found <==> taken@.contains(id));
            if !found {
                let ghost old_taken = taken@;
                let ghost old_out = out@;
                taken.push(id);
                out.push(self.patterns[id].clone());
                assert(strs(out@) =~= strs(old_out).push(pats[id as int]));
                assert(taken@.map_values(|j: usize| pats[j as int]) =~= old_taken.map_values(
                    |j: usize| pats[j as int],
                ).push(pats[id as int]));
            }
            i += 1;
        }
        assert(ids@.take(ids@.len() as int) =~= ids@);
        out
    }


    /// The match records of one source, given as its lines, tagged with
    /// `source`, in line order.
    pub fn search_source(&self, source: usize, lines: &Vec<String>) -> (r: Vec<MatchInfo>)
        ensures
            record_views(r@) == records(self.spec(), source, strs(lines@)),
    {
        let mut ex = ContextExtractor::new(source);
        let mut out: Vec<MatchInfo> = Vec::new();
        let mut i: usize = 0;
        while i < lines.len()
            invariant
                i <= lines.len(),
                ex.wf(self.spec()),
                ex.source() == source,
                ex.lines() == strs(lines@.take(i as int)),
                ex.emitted() <= records(self.spec(), source, ex.lines()).len(),
                record_views(out@) == records(self.spec(), source, ex.lines()).take(
                    ex.emitted() as int,
                ),
            decreases lines.len() - i,
        {
            let ghost o = out@;
            let ghost e0 = ex.emitted();
            let mut got = ex.feed(self, lines[i].clone());
            let ghost g = got@;
            out.append(&mut got);
            proof {
                let all = records(self.spec(), source, ex.lines());
                lemma_record_views_add(o, g);
                assert(lines@.take(i as int + 1) =~= lines@.take(i as int).push(lines@[i as int]));
                crate::model::lemma_strs_push(lines@.take(i as int), lines@[i as int]);
                assert(record_views(out@) =~= all.take(e0 as int) + all.subrange(
                    e0 as int,
                    ex.emitted() as int,
                ));
            }
            assert(record_views(out@) =~= records(self.spec(), source, ex.lines()).take(
                ex.emitted() as int,
            ));
            i += 1;
        }
        let ghost e = ex.emitted();
        let ghost all = records(self.spec(), source, ex.lines());
        let mut rest = ex.finish(self);
        let ghost o = out@;
        let ghost rv = rest@;
        proof {
            lemma_record_views_add(o, rv);
        }
        out.append(&mut rest);
        assert(lines@.take(lines@.len() as int) =~= lines@);
        assert(record_views(out@) =~= record_views(o) + record_views(rv));
        assert(record_views(out@) =~= all);
        out
    }

    /// The match records of a single source, given as its lines, in line
    /// order; they carry source number 0.
    pub fn search(&self, lines: &Vec<String>) -> (r: Vec<MatchInfo>)
        ensures
            record_views(r@) == records(self.spec(), 0, strs(lines@)),
    {
        self.search_source(0, lines)
    }


    /// The match records of several sources; the records of each source carry
    /// its position in `sources` and come in line order.
    pub fn search_many(&self, sources: &Vec<Vec<String>>) -> (r: Vec<MatchInfo>)
        ensures
            record_views(r@) == records_many(
                self.spec(),
                sources_view(sources@),
                sources@.len() as int,
            ),
    {
        let ghost sv = sources_view(sources@);
        let mut out: Vec<MatchInfo> = Vec::new();
        let mut i: usize = 0;
        while i < sources.len()
            invariant
                i <= sources.len(),
                sv == sources_view(sources@),
                record_views(out@) == records_many(self.spec(), sv, i as int),
            decreases sources.len() - i,
        {
            let mut got = self.search_source(i, &sources[i]);
            let ghost o = out@;
            let ghost g = got@;
            out.append(&mut got);
            proof {
                lemma_record_views_add(o, g);
                assert(sv[i as int] == strs(sources@[i as int]@));
            }
            i += 1;
        }
        out
    }

    /// Relies on aho_corasick's `AhoCorasick::find_iter` over the automaton
    /// that `new` built from `self.patterns`: it yields the leftmost-first,
    /// non-overlapping matches in order, each an occurrence of the pattern it
    /// names (ASCII letters folded when the case flag is set), and finds one
    /// whenever some pattern occurs in the line.
    #[verifier::external_body]
    pub(crate) fn scan(&self, line: &str) -> (r: Vec<usize>)
        ensures
            r@ == scan_ids(self.spec().patterns, self.spec().ignore_case, line@),
            forall|k: int|
                0 <= k < r@.len() ==> (r@[k] as int) < self.spec().patterns.len() && occurs_in(
                    self.spec().patterns[r@[k] as int],
                    line@,
                    self.spec().ignore_case,
                ),
            any_occurs(self.spec().patterns, line@, self.spec().ignore_case) ==> r@.len() > 0,
    {
        self.ac.find_iter(line).map(|m| m.pattern().as_usize()).collect()
    }
}

} // verus!
