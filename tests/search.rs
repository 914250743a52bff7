use fastmatcher::{ACMatcher, ContextExtractor, MatchError, MatchInfo};

fn strings(v: &[&str]) -> Vec<String> {
    v.iter().map(|s| s.to_string()).collect()
}

fn matcher(patterns: &[&str], ignore_case: bool, radius: usize) -> ACMatcher {
    match ACMatcher::new(strings(patterns), ignore_case, radius) {
        Ok(m) => m,
        Err(e) => panic!("matcher not built: {:?}", e),
    }
}

#[test]
fn scenario_full_window() {
    let m = matcher(&["ERROR"], false, 1);
    let out = m.search(&strings(&["a", "ERROR b", "c", "d"]));
    assert_eq!(out.len(), 1);
    assert_eq!(out[0].line_no, 2);
    assert_eq!(out[0].context, strings(&["a", "ERROR b", "c"]));
    assert_eq!(out[0].keywords, strings(&["ERROR"]));
}

#[test]
fn scenario_partial_window_at_end() {
    let m = matcher(&["WARN"], false, 2);
    let out = m.search(&strings(&["x", "y", "WARN z"]));
    assert_eq!(out.len(), 1);
    assert_eq!(out[0].line_no, 3);
    assert_eq!(out[0].context, strings(&["x", "y", "WARN z"]));
    assert_eq!(out[0].keywords, strings(&["WARN"]));
}

#[test]
fn scenario_two_patterns_one_line() {
    let m = matcher(&["foo", "bar"], false, 0);
    let out = m.search(&strings(&["foo and bar"]));
    assert_eq!(out.len(), 1);
    assert_eq!(out[0].line_no, 1);
    assert_eq!(out[0].context, strings(&["foo and bar"]));
    assert!(out[0].keywords.contains(&"foo".to_string()));
    assert!(out[0].keywords.contains(&"bar".to_string()));
    assert_eq!(out[0].keywords.len(), 2);
}

#[test]
fn scenario_two_sources() {
    let m = matcher(&["ERROR"], false, 0);
    let sources = vec![strings(&["ERROR 1"]), strings(&["ERROR 2"])];
    let out = m.search_many(&sources);
    assert_eq!(out.len(), 2);
    let first: Vec<&MatchInfo> = out.iter().filter(|r| r.source == 0).collect();
    let second: Vec<&MatchInfo> = out.iter().filter(|r| r.source == 1).collect();
    assert_eq!(first.len(), 1);
    assert_eq!(second.len(), 1);
    assert_eq!(first[0].context, strings(&["ERROR 1"]));
    assert_eq!(second[0].context, strings(&["ERROR 2"]));
    assert_eq!(first[0].line_no, 1);
    assert_eq!(second[0].line_no, 1);
}

#[test]
fn same_lines_same_records() {
    let m = matcher(&["ERROR", "WARN"], false, 1);
    let lines = strings(&["ERROR a", "b", "WARN c", "d", "ERROR WARN e"]);
    let a = m.search(&lines);
    let b = m.search(&lines);
    assert_eq!(a.len(), b.len());
    for (x, y) in a.iter().zip(b.iter()) {
        assert_eq!(x.line_no, y.line_no);
        assert_eq!(x.keywords, y.keywords);
        assert_eq!(x.context, y.context);
    }
}

#[test]
fn case_folding_when_asked() {
    let m = matcher(&["error"], true, 0);
    assert!(m.matches_line("ERROR"));
    assert!(m.matches_line("an Error here"));
    assert!(m.matches_line("eRRor"));
    let out = m.search(&strings(&["ERROR", "ok", "eRRor"]));
    assert_eq!(out.len(), 2);
    assert_eq!(out[0].keywords, strings(&["error"]));
    assert_eq!(out[1].line_no, 3);
}

#[test]
fn exact_case_otherwise() {
    let m = matcher(&["error"], false, 0);
    assert!(!m.matches_line("ERROR"));
    assert!(!m.matches_line("Error"));
    assert!(!m.matches_line("eRRor"));
    assert!(m.matches_line("an error"));
    assert_eq!(m.search(&strings(&["ERROR", "Error"])).len(), 0);
}

#[test]
fn repeated_pattern_listed_once() {
    let m = matcher(&["ab"], false, 0);
    let out = m.search(&strings(&["ab ab ab"]));
    assert_eq!(out.len(), 1);
    assert_eq!(out[0].keywords, strings(&["ab"]));
}

#[test]
fn keywords_in_first_match_order() {
    let m = matcher(&["foo", "bar"], false, 0);
    let kw = m.keywords_for(&vec![1, 0, 1, 0]);
    assert_eq!(kw, strings(&["bar", "foo"]));
}

#[test]
fn radius_zero_holds_trigger_only() {
    let m = matcher(&["x"], false, 0);
    let out = m.search(&strings(&["a", "x1", "b", "x2"]));
    assert_eq!(out.len(), 2);
    assert_eq!(out[0].context, strings(&["x1"]));
    assert_eq!(out[1].context, strings(&["x2"]));
    assert_eq!(out[1].line_no, 4);
}

#[test]
fn early_trigger_takes_more_after() {
    let m = matcher(&["ERROR"], false, 1);
    let out = m.search(&strings(&["ERROR a", "b", "c", "d"]));
    assert_eq!(out.len(), 1);
    assert_eq!(out[0].context, strings(&["ERROR a", "b", "c"]));
}

#[test]
fn overlapping_windows_each_reported() {
    let m = matcher(&["E"], false, 1);
    let out = m.search(&strings(&["a", "E1", "E2", "b"]));
    assert_eq!(out.len(), 2);
    assert_eq!(out[0].line_no, 2);
    assert_eq!(out[0].context, strings(&["a", "E1", "E2"]));
    assert_eq!(out[1].line_no, 3);
    assert_eq!(out[1].context, strings(&["E1", "E2", "b"]));
}

#[test]
fn no_lines_no_records() {
    let m = matcher(&["E"], false, 3);
    assert_eq!(m.search(&Vec::new()).len(), 0);
}

#[test]
fn empty_pattern_set_refused() {
    match ACMatcher::new(Vec::new(), false, 1) {
        Err(e) => assert_eq!(e, MatchError::EmptyPatternSet),
        Ok(_) => panic!("an empty pattern set was accepted"),
    }
}

#[test]
fn streaming_emits_when_window_completes() {
    let m = matcher(&["ERROR"], false, 1);
    let mut ex = ContextExtractor::new(7);
    assert_eq!(ex.feed(&m, "a".to_string()).len(), 0);
    assert_eq!(ex.feed(&m, "ERROR b".to_string()).len(), 0);
    let done = ex.feed(&m, "c".to_string());
    assert_eq!(done.len(), 1);
    assert_eq!(done[0].source, 7);
    assert_eq!(done[0].line_no, 2);
    assert_eq!(done[0].context, strings(&["a", "ERROR b", "c"]));
    assert_eq!(ex.feed(&m, "ERROR d".to_string()).len(), 0);
    let rest = ex.finish(&m);
    assert_eq!(rest.len(), 1);
    assert_eq!(rest[0].line_no, 4);
    assert_eq!(rest[0].context, strings(&["c", "ERROR d"]));
}

#[test]
fn context_never_longer_than_window() {
    let m = matcher(&["x"], false, 2);
    let lines = strings(&["x", "x", "a", "x", "b", "c", "d", "x"]);
    let out = m.search(&lines);
    assert_eq!(out.len(), 4);
    for r in out.iter() {
        assert!(r.context.len() <= 5);
    }
    assert_eq!(out[2].line_no, 4);
    assert_eq!(out[2].context.len(), 5);
    let mut last = 0;
    for r in out.iter() {
        assert!(r.line_no > last);
        last = r.line_no;
    }
}

#[test]
fn leftmost_first_prefers_earlier_pattern() {
    let m = matcher(&["abc", "ab"], false, 0);
    let out = m.search(&strings(&["xabcx"]));
    assert_eq!(out[0].keywords, strings(&["abc"]));
    let m2 = matcher(&["ab", "abc"], false, 0);
    let out2 = m2.search(&strings(&["xabcx"]));
    assert_eq!(out2[0].keywords, strings(&["ab"]));
}

#[test]
fn building_twice_gives_same_results() {
    let lines = strings(&["a", "Foo b", "c", "BAR d"]);
    let first = matcher(&["foo", "bar"], true, 1);
    let second = matcher(&["foo", "bar"], true, 1);
    let a = first.search(&lines);
    let b = second.search(&lines);
    assert_eq!(a.len(), 2);
    assert_eq!(a.len(), b.len());
    for (x, y) in a.iter().zip(b.iter()) {
        assert_eq!(x.line_no, y.line_no);
        assert_eq!(x.keywords, y.keywords);
        assert_eq!(x.context, y.context);
    }
}
