use rcvcounter::{
    add_extra_ballots, analyze, resolve_extra, run, ConfigError, ExtraVotes,
};

fn ballot(prefs: &[u8]) -> [u8; 16] {
    let mut b = [0u8; 16];
    for (i, &p) in prefs.iter().enumerate() {
        b[i] = p;
    }
    b
}

/// A surplus-sensitive election: whoever the stepped sampling reaches first
/// profits, so reordering the ballots can change the winners.
fn sensitive_groups() -> Vec<Vec<[u8; 16]>> {
    let mut g = Vec::new();
    for i in 0..12 {
        if i % 2 == 0 {
            g.push(ballot(&[1, 2]));
        } else {
            g.push(ballot(&[1, 3]));
        }
    }
    vec![g]
}

// With both reorderings off no perturbation happens: no alternate outcome
// is ever reported, whatever the iteration count.
#[test]
fn no_shuffle_reports_no_alternates() {
    let groups = sensitive_groups();
    let a = analyze(2, &groups, 100, false, false);
    assert_eq!(a.alternates.len(), 0);
    assert_eq!(a.iterations, 100);
    assert_eq!(a.baseline_count(), 100);
    let flat: Vec<[u8; 16]> = groups.iter().flatten().copied().collect();
    assert_eq!(a.baseline, run(2, &flat, &[], &[]));
    // With no alternates every baseline winner is vacuously undefeated.
    assert_eq!(a.undefeated, a.baseline);
}

// The implied baseline count and the alternate frequencies always add up to
// the iteration count; the undefeated candidates are baseline winners; and
// no alternate repeats the baseline or another alternate.
#[test]
fn aggregator_consistency_under_shuffle() {
    let groups = sensitive_groups();
    let iterations = 300;
    let a = analyze(2, &groups, iterations, true, true);
    let total: usize = a.alternates.iter().map(|e| e.count).sum();
    assert_eq!(a.baseline_count() + total, iterations);
    for u in &a.undefeated {
        assert!(a.baseline.contains(u));
    }
    for (i, e) in a.alternates.iter().enumerate() {
        assert!(e.count >= 1);
        assert_ne!(e.outcome, a.baseline);
        for e2 in &a.alternates[i + 1..] {
            assert_ne!(e.outcome, e2.outcome);
        }
    }
}

#[test]
fn resolve_extra_names() {
    let candidates = vec!["Alice Smith".to_string(), "Bob Jones".to_string()];
    let precints = vec!["p1".to_string(), "p2".to_string()];
    let e = resolve_extra(&candidates, &precints, 7, "Bob Jones", "p2").unwrap();
    assert_eq!(e.count, 7);
    assert_eq!(e.candidate, 2);
    assert_eq!(e.group, 1);
    let x = resolve_extra(&candidates, &precints, 1, "Exhausted", "p1").unwrap();
    assert_eq!(x.candidate, 0);
    assert!(matches!(
        resolve_extra(&candidates, &precints, 1, "Carol", "p1"),
        Err(ConfigError::UnknownCandidate)
    ));
    assert!(matches!(
        resolve_extra(&candidates, &precints, 1, "Bob Jones", "p9"),
        Err(ConfigError::UnknownPrecinct)
    ));
}

#[test]
fn extra_ballots_are_single_preference() {
    let mut groups = vec![vec![ballot(&[1])], vec![ballot(&[2])]];
    let extra = ExtraVotes { count: 3, candidate: 2, group: 1 };
    add_extra_ballots(&mut groups, &extra).unwrap();
    assert_eq!(groups[0].len(), 1);
    assert_eq!(groups[1].len(), 4);
    for b in &groups[1][1..] {
        assert_eq!(b[0], 2);
        assert!(b[1..].iter().all(|&x| x == 0));
    }
    let bad = ExtraVotes { count: 1, candidate: 1, group: 5 };
    assert!(matches!(
        add_extra_ballots(&mut groups, &bad),
        Err(ConfigError::UnknownPrecinct)
    ));
}

// A what-if scenario: enough synthetic first-choice ballots flip the
// baseline winner.
#[test]
fn extra_ballots_flip_the_winner() {
    let mut groups = vec![vec![ballot(&[1]), ballot(&[1]), ballot(&[2])]];
    let before = analyze(1, &groups, 0, false, false);
    assert_eq!(before.baseline, vec![1]);
    let extra = ExtraVotes { count: 5, candidate: 2, group: 0 };
    add_extra_ballots(&mut groups, &extra).unwrap();
    let after = analyze(1, &groups, 0, false, false);
    assert_eq!(after.baseline, vec![2]);
}

// Shuffling permutes the cloned ballots but never loses or invents one: the
// baseline of a shuffled analysis is computed on the unshuffled ballots,
// and every run still tabulates the same number of ballots, so an election
// whose every ballot is identical can never produce an alternate outcome.
#[test]
fn shuffle_of_identical_ballots_changes_nothing() {
    let groups = vec![vec![ballot(&[1, 2]); 6], vec![ballot(&[1, 2]); 6]];
    let a = analyze(2, &groups, 50, true, true);
    assert_eq!(a.alternates.len(), 0);
    assert_eq!(a.baseline_count(), 50);
}

#[test]
fn config_error_messages_name_the_failure() {
    let candidates = vec!["Alice".to_string()];
    let precints = vec!["p1".to_string()];
    let e = resolve_extra(&candidates, &precints, 1, "Nobody", "p1").unwrap_err();
    assert_eq!(e.message(), "unknown candidate");
    let e = resolve_extra(&candidates, &precints, 1, "Alice", "nowhere").unwrap_err();
    assert_eq!(e.message(), "unknown precinct");
    assert_eq!(ConfigError::UnknownElection.message(), "unknown election");
}
