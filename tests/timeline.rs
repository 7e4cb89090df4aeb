use std::collections::HashMap;

use chrono::Utc;
use orchestrator::{DecisionType, Orchestrator, TagRate, TimelineEvent, Timestamp};

fn now() -> Timestamp {
    let t = Utc::now();
    Timestamp::new(t.timestamp(), t.timestamp_subsec_nanos()).unwrap()
}

fn event(commit: &str, decision: DecisionType, file: &str, suggestion: &str, feedback: &str, tags: &[&str]) -> TimelineEvent {
    TimelineEvent {
        timestamp: now(),
        commit_hash: Some(commit.to_string()),
        decision_type: decision,
        files_modified: vec![file.to_string()],
        llm_suggestion: suggestion.to_string(),
        user_feedback: feedback.to_string(),
        tags: tags.iter().map(|t| t.to_string()).collect(),
    }
}

fn rates(stats: &[TagRate]) -> HashMap<String, f64> {
    stats
        .iter()
        .map(|s| (s.tag.clone(), s.accepted as f64 / s.total as f64))
        .collect()
}

fn find<'a>(stats: &'a [TagRate], tag: &str) -> &'a TagRate {
    stats.iter().find(|s| s.tag == tag).unwrap()
}

#[test]
fn test_orchestrator_basics() {
    let mut orchestrator = Orchestrator::new(None);
    let e = event("abc123", DecisionType::Accept, "test.rs", "Add function", "Good change", &["feature"]);
    orchestrator.add_event(e);
    assert_eq!(orchestrator.events().len(), 1);

    let patterns = rates(&orchestrator.analyze_patterns());
    assert_eq!(patterns.get("feature"), Some(&1.0));
}

#[test]
fn test_add_and_retrieve_events() {
    let mut orchestrator = Orchestrator::new(None);
    let event1 = event(
        "abc123",
        DecisionType::Accept,
        "src/main.rs",
        "Add error handling",
        "Good improvement",
        &["error-handling", "safety"],
    );
    let event2 = event(
        "def456",
        DecisionType::Reject,
        "src/lib.rs",
        "Remove error checking",
        "Would reduce safety",
        &["safety"],
    );
    orchestrator.add_event(event1);
    orchestrator.add_event(event2);

    let safety_events = orchestrator.get_events_by_tag("safety");
    assert_eq!(safety_events.len(), 2);
    assert_eq!(safety_events[0].commit_hash.as_deref(), Some("abc123"));
    assert_eq!(safety_events[1].commit_hash.as_deref(), Some("def456"));

    let accepted = orchestrator.get_events_by_decision(DecisionType::Accept);
    assert_eq!(accepted.len(), 1);
    assert_eq!(accepted[0].commit_hash.as_deref(), Some("abc123"));
    let rejected = orchestrator.get_events_by_decision(DecisionType::Reject);
    assert_eq!(rejected.len(), 1);
    assert_eq!(rejected[0].commit_hash.as_deref(), Some("def456"));
}

#[test]
fn test_pattern_analysis() {
    let mut orchestrator = Orchestrator::new(None);
    for i in 0..10 {
        let e = TimelineEvent {
            timestamp: now(),
            commit_hash: Some(format!("commit{}", i)),
            decision_type: if i % 2 == 0 { DecisionType::Accept } else { DecisionType::Reject },
            files_modified: vec!["test.rs".to_string()],
            llm_suggestion: "Test change".to_string(),
            user_feedback: "Test feedback".to_string(),
            tags: vec!["tag1".to_string(), if i < 8 { "tag2".to_string() } else { "tag3".to_string() }],
        };
        orchestrator.add_event(e);
    }

    let patterns = rates(&orchestrator.analyze_patterns());
    assert!((patterns["tag1"] - 0.5).abs() < f64::EPSILON);
    assert!((patterns["tag2"] - 0.5).abs() < f64::EPSILON);
    assert!((patterns["tag3"] - 0.5).abs() < f64::EPSILON);
}

#[test]
fn exact_counts_per_tag() {
    let mut orchestrator = Orchestrator::new(None);
    for i in 0..10 {
        let decision = if i % 2 == 0 { DecisionType::Accept } else { DecisionType::Reject };
        let second = if i < 8 { "tag2" } else { "tag3" };
        orchestrator.add_event(event("c", decision, "test.rs", "s", "f", &["tag1", second]));
    }
    let stats = orchestrator.analyze_patterns();
    assert_eq!(stats.len(), 3);
    assert_eq!((find(&stats, "tag1").accepted, find(&stats, "tag1").total), (5, 10));
    assert_eq!((find(&stats, "tag2").accepted, find(&stats, "tag2").total), (4, 8));
    assert_eq!((find(&stats, "tag3").accepted, find(&stats, "tag3").total), (1, 2));
}

#[test]
fn empty_timeline_has_nothing() {
    let orchestrator = Orchestrator::new(None);
    assert_eq!(orchestrator.events().len(), 0);
    assert!(orchestrator.analyze_patterns().is_empty());
    assert!(orchestrator.get_events_by_tag("feature").is_empty());
    assert!(orchestrator.get_events_by_tag("").is_empty());
    assert!(orchestrator.get_events_by_decision(DecisionType::Accept).is_empty());
    assert!(orchestrator.get_events_by_decision(DecisionType::Partial).is_empty());
}

#[test]
fn reopened_timeline_keeps_events_in_order() {
    let mut first = Orchestrator::new(None);
    first.add_event(event("a", DecisionType::Accept, "x.rs", "s1", "f1", &["t"]));
    first.add_event(event("b", DecisionType::Partial, "y.rs", "s2", "f2", &[]));
    first.add_event(event("c", DecisionType::Reject, "z.rs", "s3", "f3", &["t", "u"]));
    let persisted: Vec<TimelineEvent> = first
        .events()
        .iter()
        .map(|e| TimelineEvent {
            timestamp: e.timestamp,
            commit_hash: e.commit_hash.clone(),
            decision_type: e.decision_type,
            files_modified: e.files_modified.clone(),
            llm_suggestion: e.llm_suggestion.clone(),
            user_feedback: e.user_feedback.clone(),
            tags: e.tags.clone(),
        })
        .collect();
    let reopened = Orchestrator::new(Some(persisted));
    assert_eq!(reopened.events().len(), 3);
    for (a, b) in first.events().iter().zip(reopened.events().iter()) {
        assert_eq!(a.timestamp, b.timestamp);
        assert_eq!(a.commit_hash, b.commit_hash);
        assert_eq!(a.decision_type, b.decision_type);
        assert_eq!(a.files_modified, b.files_modified);
        assert_eq!(a.llm_suggestion, b.llm_suggestion);
        assert_eq!(a.user_feedback, b.user_feedback);
        assert_eq!(a.tags, b.tags);
    }
}

#[test]
fn append_keeps_earlier_events_and_adds_last() {
    let mut o = Orchestrator::new(Some(vec![event("a", DecisionType::Accept, "x.rs", "s", "f", &["t"])]));
    o.add_event(event("b", DecisionType::Reject, "y.rs", "s", "f", &["u"]));
    assert_eq!(o.events().len(), 2);
    assert_eq!(o.events()[0].commit_hash.as_deref(), Some("a"));
    assert_eq!(o.events()[1].commit_hash.as_deref(), Some("b"));
}

#[test]
fn tag_match_is_exact_and_case_sensitive() {
    let mut o = Orchestrator::new(None);
    o.add_event(event("a", DecisionType::Accept, "x.rs", "s", "f", &["Safety"]));
    o.add_event(event("b", DecisionType::Accept, "x.rs", "s", "f", &["safety-net"]));
    o.add_event(event("c", DecisionType::Accept, "x.rs", "s", "f", &["safety"]));
    let hits = o.get_events_by_tag("safety");
    assert_eq!(hits.len(), 1);
    assert_eq!(hits[0].commit_hash.as_deref(), Some("c"));
    assert!(o.get_events_by_tag("missing").is_empty());
}

#[test]
fn decision_filter_keeps_order() {
    let mut o = Orchestrator::new(None);
    let decisions = [DecisionType::Partial, DecisionType::Accept, DecisionType::Partial, DecisionType::Reject];
    for (i, d) in decisions.iter().enumerate() {
        o.add_event(event(&format!("c{}", i), *d, "x.rs", "s", "f", &[]));
    }
    let partial = o.get_events_by_decision(DecisionType::Partial);
    assert_eq!(partial.len(), 2);
    assert_eq!(partial[0].commit_hash.as_deref(), Some("c0"));
    assert_eq!(partial[1].commit_hash.as_deref(), Some("c2"));
    assert_eq!(o.get_events_by_decision(DecisionType::Accept).len(), 1);
}

#[test]
fn repeated_tag_counts_twice_and_partial_is_not_accepted() {
    let mut o = Orchestrator::new(None);
    o.add_event(event("a", DecisionType::Accept, "x.rs", "s", "f", &["dup", "dup"]));
    o.add_event(event("b", DecisionType::Partial, "x.rs", "s", "f", &["dup", "other"]));
    let stats = o.analyze_patterns();
    assert_eq!(stats.len(), 2);
    assert_eq!((find(&stats, "dup").accepted, find(&stats, "dup").total), (2, 3));
    assert_eq!((find(&stats, "other").accepted, find(&stats, "other").total), (0, 1));
    assert_eq!(rates(&stats)["other"], 0.0);
}

#[test]
fn rejected_only_tag_has_zero_rate() {
    let mut o = Orchestrator::new(None);
    o.add_event(event("a", DecisionType::Reject, "x.rs", "s", "f", &["bad"]));
    o.add_event(event("b", DecisionType::Reject, "x.rs", "s", "f", &["bad"]));
    let stats = o.analyze_patterns();
    assert_eq!(stats.len(), 1);
    assert_eq!(stats[0].tag, "bad");
    assert_eq!((stats[0].accepted, stats[0].total), (0, 2));
}

#[test]
fn timestamp_bounds() {
    assert!(Timestamp::new(0, 0).is_some());
    assert!(Timestamp::new(59, 1_999_999_999).is_some());
    assert!(Timestamp::new(59, 2_000_000_000).is_none());
    let t = Timestamp::new(1_431_648_000, 7).unwrap();
    assert_eq!(t.secs(), 1_431_648_000);
    assert_eq!(t.subsec_nanos(), 7);
}

#[test]
fn carries_tag_checks_every_tag() {
    let e = event("a", DecisionType::Accept, "x.rs", "s", "f", &["one", "two"]);
    assert!(e.carries_tag(&"two".to_string()));
    assert!(!e.carries_tag(&"three".to_string()));
}

#[test]
fn counts_every_tag_occurrence() {
    let mut o = Orchestrator::new(None);
    assert_eq!(o.tag_occurrence_count(), Some(0));
    o.add_event(event("a", DecisionType::Accept, "x.rs", "s", "f", &["t", "t", "u"]));
    o.add_event(event("b", DecisionType::Reject, "x.rs", "s", "f", &[]));
    o.add_event(event("c", DecisionType::Partial, "x.rs", "s", "f", &["v"]));
    assert_eq!(o.tag_occurrence_count(), Some(4));
}
