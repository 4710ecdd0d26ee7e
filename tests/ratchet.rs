use salt_spray::counts::LintCounts;
use salt_spray::ledger::{is_examined, Relationship, SupressedLints};

fn ledger(entries: &[(&str, &[(&str, usize)])]) -> SupressedLints {
    let mut l = SupressedLints::new();
    for (file, lints) in entries {
        let mut c = LintCounts::new();
        for (lint, n) in lints.iter() {
            c.set(&lint.to_string(), *n);
        }
        l.insert(file.to_string(), c);
    }
    l
}

fn flat(l: &SupressedLints) -> Vec<(String, String, usize)> {
    let mut v = Vec::new();
    for i in 0..l.len() {
        let (file, counts) = l.entry(i);
        for j in 0..counts.len() {
            let (lint, n) = counts.entry(j);
            v.push((file.clone(), lint.clone(), n));
        }
    }
    v.sort();
    v
}

fn files(names: &[&str]) -> Vec<String> {
    names.iter().map(|s| s.to_string()).collect()
}

fn row(f: &str, l: &str, n: usize) -> (String, String, usize) {
    (f.to_string(), l.to_string(), n)
}

#[test]
fn regression_is_rejected() {
    let baseline = ledger(&[("a.src", &[("dead_code", 2)])]);
    let observed = ledger(&[("a.src", &[("dead_code", 3)])]);
    let verdict = observed.vis_a_vis(&baseline, &files(&["a.src"]));
    assert_eq!(verdict, Relationship::NotASubset);
    assert_eq!(verdict.exit_code(), 1);
    assert_eq!(
        observed.regression(&baseline),
        Some(("a.src".to_string(), "dead_code".to_string()))
    );
    assert_eq!(flat(&baseline), vec![row("a.src", "dead_code", 2)]);
}

#[test]
fn new_suppression_is_rejected() {
    let baseline = ledger(&[]);
    let observed = ledger(&[("a.src", &[("deprecated", 1)])]);
    let verdict = observed.vis_a_vis(&baseline, &files(&["a.src"]));
    assert_eq!(verdict, Relationship::NotASubset);
    assert_eq!(verdict.exit_code(), 1);
}

#[test]
fn new_lint_in_known_file_is_rejected() {
    let baseline = ledger(&[("a.src", &[("dead_code", 4)])]);
    let observed = ledger(&[("a.src", &[("dead_code", 1), ("deprecated", 1)])]);
    assert_eq!(observed.vis_a_vis(&baseline, &files(&["a.src"])), Relationship::NotASubset);
    assert_eq!(
        observed.regression(&baseline),
        Some(("a.src".to_string(), "deprecated".to_string()))
    );
}

#[test]
fn improvement_tightens_baseline() {
    let mut baseline = ledger(&[("a.src", &[("deprecated", 5)])]);
    let observed = ledger(&[("a.src", &[("deprecated", 2)])]);
    let examined = files(&["a.src"]);
    let verdict = observed.vis_a_vis(&baseline, &examined);
    assert_eq!(verdict, Relationship::ProperSubset);
    assert_eq!(verdict.exit_code(), 2);
    baseline.shrink_around(&observed, &examined);
    assert_eq!(flat(&baseline), vec![row("a.src", "deprecated", 2)]);
}

#[test]
fn rerun_after_tightening_is_expected() {
    let mut baseline = ledger(&[("a.src", &[("deprecated", 5), ("dead_code", 1)])]);
    let observed = ledger(&[("a.src", &[("deprecated", 2)])]);
    let examined = files(&["a.src"]);
    assert_eq!(observed.vis_a_vis(&baseline, &examined), Relationship::ProperSubset);
    baseline.shrink_around(&observed, &examined);
    assert_eq!(
        flat(&baseline),
        vec![row("a.src", "dead_code", 0), row("a.src", "deprecated", 2)]
    );
    assert_eq!(observed.vis_a_vis(&baseline, &examined), Relationship::Expected);
    assert_eq!(observed.vis_a_vis(&observed, &examined), Relationship::Expected);
}

#[test]
fn unchanged_counts_are_expected() {
    let baseline = ledger(&[("a.src", &[("dead_code", 2)]), ("b.src", &[("deprecated", 1)])]);
    let observed = ledger(&[("a.src", &[("dead_code", 2)])]);
    let verdict = observed.vis_a_vis(&baseline, &files(&["a.src"]));
    assert_eq!(verdict, Relationship::Expected);
    assert_eq!(verdict.exit_code(), 0);
    assert_eq!(observed.regression(&baseline), None);
}

#[test]
fn resolved_lint_of_examined_file_is_an_improvement() {
    let mut baseline = ledger(&[("a.src", &[("dead_code", 2), ("deprecated", 1)])]);
    let observed = ledger(&[("a.src", &[("dead_code", 2)])]);
    let examined = files(&["a.src"]);
    assert_eq!(observed.vis_a_vis(&baseline, &examined), Relationship::ProperSubset);
    baseline.shrink_around(&observed, &examined);
    assert_eq!(
        flat(&baseline),
        vec![row("a.src", "dead_code", 2), row("a.src", "deprecated", 0)]
    );
}

#[test]
fn examined_file_without_suppressions_is_an_improvement() {
    let baseline = ledger(&[("a.src", &[("dead_code", 2)])]);
    let observed = ledger(&[]);
    assert_eq!(observed.vis_a_vis(&baseline, &files(&["a.src"])), Relationship::ProperSubset);
    assert_eq!(observed.vis_a_vis(&baseline, &files(&[])), Relationship::Expected);
}

#[test]
fn zero_count_is_not_a_new_suppression() {
    let baseline = ledger(&[]);
    let observed = ledger(&[("a.src", &[("dead_code", 0)])]);
    assert_eq!(observed.vis_a_vis(&baseline, &files(&["a.src"])), Relationship::Expected);
}

#[test]
fn untouched_file_does_not_interfere() {
    let examined = files(&["a.src"]);
    let observed = ledger(&[("a.src", &[("dead_code", 1)])]);
    for b in [0usize, 1, 7] {
        let mut baseline = ledger(&[("a.src", &[("dead_code", 3)]), ("b.src", &[("dead_code", b)])]);
        assert_eq!(observed.vis_a_vis(&baseline, &examined), Relationship::ProperSubset);
        baseline.shrink_around(&observed, &examined);
        assert_eq!(
            flat(&baseline),
            vec![row("a.src", "dead_code", 1), row("b.src", "dead_code", b)]
        );
    }
    let without = ledger(&[("a.src", &[("dead_code", 1)])]);
    let with = ledger(&[("a.src", &[("dead_code", 1)]), ("b.src", &[("deprecated", 9)])]);
    assert_eq!(observed.vis_a_vis(&without, &examined), Relationship::Expected);
    assert_eq!(observed.vis_a_vis(&with, &examined), Relationship::Expected);
}

#[test]
fn within_baseline_is_never_rejected() {
    let baseline = ledger(&[("a.src", &[("dead_code", 3), ("deprecated", 1)])]);
    let observed = ledger(&[("a.src", &[("dead_code", 3), ("deprecated", 0)])]);
    assert_ne!(observed.vis_a_vis(&baseline, &files(&["a.src"])), Relationship::NotASubset);
}

#[test]
fn shrink_never_raises() {
    let mut baseline = ledger(&[("a.src", &[("dead_code", 2), ("deprecated", 4)])]);
    let observed = ledger(&[("a.src", &[("dead_code", 5), ("deprecated", 1), ("unused", 3)])]);
    baseline.shrink_around(&observed, &files(&["a.src"]));
    assert_eq!(
        flat(&baseline),
        vec![row("a.src", "dead_code", 2), row("a.src", "deprecated", 1)]
    );
}

#[test]
fn grow_takes_in_observed_counts() {
    let mut baseline = ledger(&[("a.src", &[("dead_code", 2), ("deprecated", 4)]), ("c.src", &[("x", 1)])]);
    let observed = ledger(&[
        ("a.src", &[("dead_code", 5), ("deprecated", 1), ("unused", 3)]),
        ("b.src", &[("unsafe_code", 2)]),
    ]);
    assert_eq!(observed.vis_a_vis(&baseline, &files(&["a.src", "b.src"])), Relationship::NotASubset);
    baseline.grow_around(&observed);
    assert_eq!(
        flat(&baseline),
        vec![
            row("a.src", "dead_code", 5),
            row("a.src", "deprecated", 4),
            row("a.src", "unused", 3),
            row("b.src", "unsafe_code", 2),
            row("c.src", "x", 1),
        ]
    );
    assert_ne!(observed.vis_a_vis(&baseline, &files(&["a.src", "b.src"])), Relationship::NotASubset);
}

#[test]
fn insert_replaces_an_entry() {
    let mut l = ledger(&[("a.src", &[("dead_code", 2)])]);
    let mut c = LintCounts::new();
    c.set(&"deprecated".to_string(), 1);
    l.insert("a.src".to_string(), c);
    assert_eq!(flat(&l), vec![row("a.src", "deprecated", 1)]);
    assert!(l.lints_of(&"b.src".to_string()).is_none());
}

#[test]
fn examined_lookup() {
    let examined = files(&["a.src", "b.src"]);
    assert!(is_examined(&examined, &"b.src".to_string()));
    assert!(!is_examined(&examined, &"./b.src".to_string()));
}


#[test]
fn resolved_suppressions_are_listed() {
    let baseline = ledger(&[
        ("a.src", &[("dead_code", 2), ("deprecated", 1), ("unused", 0)]),
        ("b.src", &[("dead_code", 3)]),
    ]);
    let observed = ledger(&[("a.src", &[("dead_code", 2)])]);
    let resolved = baseline.resolved_in(&observed, &files(&["a.src"]));
    assert_eq!(resolved, vec![("a.src".to_string(), "deprecated".to_string())]);
    let all = baseline.resolved_in(&ledger(&[]), &files(&["a.src", "b.src"]));
    assert_eq!(all.len(), 3);
}

#[test]
fn apply_verdict_follows_the_policy() {
    let examined = files(&["a.src"]);
    let mut baseline = ledger(&[("a.src", &[("deprecated", 5)])]);
    let observed = ledger(&[("a.src", &[("deprecated", 2)])]);
    assert_eq!(baseline.apply_verdict(&observed, &examined, false), (Relationship::ProperSubset, true));
    assert_eq!(flat(&baseline), vec![row("a.src", "deprecated", 2)]);
    assert_eq!(baseline.apply_verdict(&observed, &examined, false), (Relationship::Expected, false));
    assert_eq!(flat(&baseline), vec![row("a.src", "deprecated", 2)]);

    let worse = ledger(&[("a.src", &[("deprecated", 3)])]);
    assert_eq!(baseline.apply_verdict(&worse, &examined, false), (Relationship::NotASubset, false));
    assert_eq!(flat(&baseline), vec![row("a.src", "deprecated", 2)]);
    assert_eq!(baseline.apply_verdict(&worse, &examined, true), (Relationship::NotASubset, true));
    assert_eq!(flat(&baseline), vec![row("a.src", "deprecated", 3)]);
}
