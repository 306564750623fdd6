use cargo_crev::error::Error;
use cargo_crev::package::PackageId;
use cargo_crev::select::{
    answers_to_selector, answers_with_verdict, require_found, select_dependency,
    select_independent, takes_lead,
};

fn id(name: &str, version: &str) -> PackageId {
    PackageId::new(name, version, "registry+https://example.org/index")
}

fn candidates() -> Vec<PackageId> {
    vec![id("log", "0.4.8"), id("rand", "0.6.5"), id("serde", "1.0.104"), id("rand", "0.7.3")]
}

#[test]
fn one_answer_is_selected() {
    assert_eq!(select_dependency(&candidates(), "serde", None), Ok(Some(id("serde", "1.0.104"))));
    let v = "0.7.3".to_string();
    assert_eq!(select_dependency(&candidates(), "rand", Some(&v)), Ok(Some(id("rand", "0.7.3"))));
}

#[test]
fn no_answer_is_nothing() {
    assert_eq!(select_dependency(&candidates(), "tokio", None), Ok(None));
    let v = "2.0.0".to_string();
    assert_eq!(select_dependency(&candidates(), "serde", Some(&v)), Ok(None));
    assert_eq!(select_dependency(&[], "serde", None), Ok(None));
}

#[test]
fn several_answers_are_ambiguous() {
    assert_eq!(
        select_dependency(&candidates(), "rand", None),
        Err(Error::AmbiguousSelection(vec!["0.6.5".to_string(), "0.7.3".to_string()]))
    );
}

#[test]
fn build_metadata_does_not_tell_versions_apart() {
    let v = "1.0.104+local".to_string();
    assert!(answers_to_selector(&id("serde", "1.0.104"), &"serde".to_string(), Some(&v)));
    let v = "1.0.104-rc.1".to_string();
    assert!(!answers_to_selector(&id("serde", "1.0.104"), &"serde".to_string(), Some(&v)));
    let v = "one".to_string();
    assert!(!answers_to_selector(&id("serde", "1.0.104"), &"serde".to_string(), Some(&v)));
    assert!(!answers_to_selector(&id("serde", "1.0.104"), &"serde_json".to_string(), None));
}

#[test]
fn name_and_verdict_decide_an_answer() {
    assert!(answers_with_verdict(true, None));
    assert!(answers_with_verdict(true, Some(Some(true))));
    assert!(!answers_with_verdict(true, Some(Some(false))));
    assert!(!answers_with_verdict(true, Some(None)));
    assert!(!answers_with_verdict(false, None));
    assert!(!answers_with_verdict(false, Some(Some(true))));
}

#[test]
fn the_latest_is_selected_where_no_version_is_asked_for() {
    let summaries = vec![
        id("rand", "0.6.5"),
        id("rand", "0.7.3"),
        id("rand", "0.7.0"),
        id("rand", "0.8.0-alpha"),
        id("rand", "0.3.23"),
    ];
    assert_eq!(select_independent(&summaries, None), Some(id("rand", "0.8.0-alpha")));
    assert_eq!(select_independent(&summaries[..3], None), Some(id("rand", "0.7.3")));
    assert_eq!(select_independent(&[], None), None);
}

#[test]
fn of_two_equal_versions_the_later_one_is_the_latest() {
    let first = PackageId::new("rand", "0.7.3", "first");
    let second = PackageId::new("rand", "0.7.3+again", "second");
    assert_eq!(
        select_independent(&[first.clone(), second.clone()], None),
        Some(second.clone())
    );
    assert_eq!(select_independent(&[second.clone(), first.clone()], None), Some(first));
}

#[test]
fn a_release_is_later_than_its_candidates() {
    let summaries = vec![id("x", "1.0.0"), id("x", "1.0.0-rc.2"), id("x", "1.0.0-rc.10")];
    assert_eq!(select_independent(&summaries, None), Some(id("x", "1.0.0")));
    assert_eq!(select_independent(&summaries[1..], None), Some(id("x", "1.0.0-rc.10")));
}

#[test]
fn the_version_asked_for_is_selected() {
    let summaries = vec![id("rand", "0.6.5"), id("rand", "0.7.3"), id("rand", "0.7.0")];
    let v = "0.7.0".to_string();
    assert_eq!(select_independent(&summaries, Some(&v)), Some(id("rand", "0.7.0")));
    let v = "0.9.0".to_string();
    assert_eq!(select_independent(&summaries, Some(&v)), None);
}

#[test]
fn a_verdict_gives_the_lead_only_when_it_is_yes() {
    assert!(takes_lead(Some(true)));
    assert!(!takes_lead(Some(false)));
    assert!(!takes_lead(None));
}

#[test]
fn nothing_found_is_a_failure_with_a_hint() {
    assert_eq!(require_found(Some(id("a", "1.0.0")), false), Ok(id("a", "1.0.0")));
    assert_eq!(require_found(None, false), Err(Error::CrateNotFound { unrelated: false }));
    assert_eq!(require_found(None, true), Err(Error::CrateNotFound { unrelated: true }));
    assert_eq!(
        Error::not_found_hint(true),
        "Could not find requested crate. Try updating cargo's registry index cache?"
    );
    assert_eq!(
        Error::not_found_hint(false),
        "Could not find requested crate. Try `-u` if the crate is not a dependency."
    );
}

#[test]
fn an_ambiguous_selection_is_told_with_count_and_versions() {
    let versions = vec!["0.6.5".to_string(), "0.7.3".to_string()];
    assert_eq!(
        Error::ambiguous_selection_text(&versions),
        "Ambiguous selection: 2 matches found: 0.6.5, 0.7.3"
    );
    assert_eq!(
        Error::ambiguous_selection_text(&versions),
        format!("Ambiguous selection: {} matches found: {}", versions.len(), versions.join(", "))
    );
}

#[test]
fn the_count_is_written_in_decimal() {
    for n in [0usize, 1, 9, 10, 11, 99, 100, 101, 120, 1005] {
        let versions: Vec<String> = (0..n).map(|i| format!("1.0.{}", i)).collect();
        assert_eq!(
            Error::ambiguous_selection_text(&versions),
            format!("Ambiguous selection: {} matches found: {}", n, versions.join(", "))
        );
    }
}

#[test]
fn the_failure_of_a_selection_carries_what_the_text_needs() {
    match select_dependency(&candidates(), "rand", None) {
        Err(Error::AmbiguousSelection(versions)) => assert_eq!(
            Error::ambiguous_selection_text(&versions),
            "Ambiguous selection: 2 matches found: 0.6.5, 0.7.3"
        ),
        other => panic!("{:?}", other),
    }
}
