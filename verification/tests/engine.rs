use hunters_mark::backend::{Backend, Match};
use hunters_mark::error::HuntersMarkError;
use hunters_mark::global::{Config, Mark};
use hunters_mark::selector::{chosen_index, select_plan, SelectPlan};

fn backend_with(names_and_paths: &[(&str, &str)]) -> Backend {
    let mut config = Config::default();
    for (name, path) in names_and_paths {
        config
            .add_mark(name.to_string(), path.to_string(), Vec::new(), 100, true)
            .unwrap();
    }
    Backend::new("/tmp/config.toml".to_string(), config)
}

fn sample_match(name: &str, score: i64) -> Match {
    Match {
        path: format!("/{}", name),
        mark: Mark {
            name: name.to_string(),
            tags: Vec::new(),
            last_accessed: 0,
            created_at: 0,
        },
        score,
    }
}

#[test]
fn match_all_is_sorted_and_drops_non_matches() {
    let backend = backend_with(&[("alpha", "/alpha"), ("beta", "/beta"), ("alp", "/alp")]);
    let matches = backend.match_all("alp");
    // "beta" has no subsequence "alp" and is left out
    assert!(matches.iter().all(|m| m.mark.name != "beta"));
    assert!(matches.iter().any(|m| m.mark.name == "alpha"));
    assert!(matches.iter().any(|m| m.mark.name == "alp"));
    for w in matches.windows(2) {
        assert!(w[0].score >= w[1].score);
    }
}

#[test]
fn empty_match_all_returns_everything_with_zero_scores() {
    let backend = backend_with(&[("one", "/one"), ("two", "/two")]);
    let matches = backend.empty_match_all();
    assert_eq!(matches.len(), 2);
    assert_eq!(matches[0].mark.name, "one");
    assert_eq!(matches[1].mark.name, "two");
    assert!(matches.iter().all(|m| m.score == 0));
}

#[test]
fn banded_set_holds_all_close_matches_in_order() {
    let backend = backend_with(&[
        ("api", "/api"),
        ("api-server", "/api-server"),
        ("apple", "/apple"),
    ]);
    let all = backend.match_all("api");
    assert!(!all.is_empty());
    let best = all[0].score;
    let banded = backend.close_to_best_matches("api", 5).unwrap();
    assert!(!banded.is_empty());
    assert_eq!(banded[0].score, best);
    for w in banded.windows(2) {
        assert!(w[0].score >= w[1].score);
    }
    // exactly the matches within the band survive
    let expected: Vec<&Match> = all.iter().filter(|m| best - m.score <= 5).collect();
    assert_eq!(banded.len(), expected.len());
    for m in &banded {
        assert!(best - m.score <= 5);
    }
    // when "api" and "api-server" land within the band while "apple" falls
    // outside it (or does not match), the banded set is exactly those two
    let score_of = |name: &str| all.iter().find(|m| m.mark.name == name).map(|m| m.score);
    let sa = score_of("api");
    let ss = score_of("api-server");
    let sp = score_of("apple");
    let close = |s: Option<i64>| matches!(s, Some(v) if best - v <= 5);
    if close(sa) && close(ss) && !close(sp) {
        assert_eq!(banded.len(), 2);
        let names: Vec<&str> = banded.iter().map(|m| m.mark.name.as_str()).collect();
        assert!(names.contains(&"api"));
        assert!(names.contains(&"api-server"));
    }
}

#[test]
fn query_without_matches_reports_the_query() {
    let backend = backend_with(&[("api", "/api")]);
    let r = backend.close_to_best_matches("zzz", 5);
    match r {
        Err(HuntersMarkError::MarkNotFound(query)) => assert_eq!(query, "zzz"),
        other => panic!("expected MarkNotFound, got {:?}", other),
    }
}

#[test]
fn match_mark_mut_picks_the_single_best_mark() {
    let backend = backend_with(&[("beta", "/beta"), ("alpha", "/alpha")]);
    let idx = backend.config.match_mark_mut("alpha").unwrap();
    assert_eq!(backend.config.marks[idx].mark.name, "alpha");
    let r = backend.config.match_mark_mut("zzz");
    match r {
        Err(HuntersMarkError::MarkNotFound(query)) => assert_eq!(query, "zzz"),
        other => panic!("expected MarkNotFound, got {:?}", other),
    }
}

#[test]
fn single_candidate_is_never_prompted_for() {
    let one = vec![sample_match("api", 10)];
    assert_eq!(select_plan(&one), SelectPlan::TakeFirst);
    let two = vec![sample_match("api", 10), sample_match("api-server", 8)];
    assert_eq!(select_plan(&two), SelectPlan::Prompt);
}

#[test]
fn preferred_path_moves_to_the_front_keeping_order() {
    let backend = backend_with(&[("one", "/one"), ("two", "/two"), ("three", "/three")]);
    let all = backend.empty_match_all();
    let bubbled = hunters_mark::backend::prioritize_path(&all, "/two");
    let paths: Vec<&str> = bubbled.iter().map(|m| m.path.as_str()).collect();
    assert_eq!(paths, vec!["/two", "/one", "/three"]);
    // an unknown preferred path leaves the order unchanged
    let same = hunters_mark::backend::prioritize_path(&all, "/zzz");
    let paths2: Vec<&str> = same.iter().map(|m| m.path.as_str()).collect();
    assert_eq!(paths2, vec!["/one", "/two", "/three"]);
}

#[test]
fn chosen_index_filters_cancelled_and_out_of_range_choices() {
    let two = vec![sample_match("api", 10), sample_match("api-server", 8)];
    assert_eq!(chosen_index(&two, Some(1)), Some(1));
    assert_eq!(chosen_index(&two, Some(2)), None);
    assert_eq!(chosen_index(&two, None), None);
}
