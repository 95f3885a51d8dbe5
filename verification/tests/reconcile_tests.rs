use tagfeed::tags::{parse_tokens, plan_updates, reconcile_plan};

fn tokens(raw: &str) -> Vec<String> {
    parse_tokens(raw)
}

#[test]
fn parse_trims_and_skips_empty_tokens() {
    assert_eq!(tokens(" a, ,b ,b"), vec!["a".to_string(), "b".to_string(), "b".to_string()]);
}

#[test]
fn parse_empty_inputs() {
    assert_eq!(tokens(""), Vec::<String>::new());
    assert_eq!(tokens("   "), Vec::<String>::new());
    assert_eq!(tokens(" , ,,"), Vec::<String>::new());
}

#[test]
fn parse_keeps_order_and_duplicates() {
    assert_eq!(
        tokens("rust,db,rust"),
        vec!["rust".to_string(), "db".to_string(), "rust".to_string()]
    );
    assert_eq!(tokens("one"), vec!["one".to_string()]);
    assert_eq!(tokens("\ta\n,  b  "), vec!["a".to_string(), "b".to_string()]);
}

#[test]
fn parse_trims_unicode_whitespace() {
    assert_eq!(tokens("\u{3000}rust\u{00A0},\u{2003}db "), vec![
        "rust".to_string(),
        "db".to_string()
    ]);
}

#[test]
fn parse_keeps_inner_whitespace() {
    assert_eq!(tokens("data bases, x"), vec!["data bases".to_string(), "x".to_string()]);
}

#[test]
fn plan_converges_to_desired_set() {
    // Existing {1, 2, 3}, desired {2, 4}: insert only the missing {4},
    // delete only the unconfirmed {1, 3}.
    let existing = vec![1, 2, 3];
    let resolved = vec![2, 4];
    let plan = plan_updates(&existing, &resolved);
    assert_eq!(plan.to_add, vec![4]);
    assert_eq!(plan.to_remove, vec![1, 3]);
}

#[test]
fn plan_deduplicates_repeated_tokens() {
    // Repeated tokens of one update cause one insert each, even when the
    // id is already associated.
    let existing = vec![5];
    let resolved = vec![5, 5, 6, 6];
    let plan = plan_updates(&existing, &resolved);
    assert_eq!(plan.to_add, vec![6]);
    assert_eq!(plan.to_remove, Vec::<i32>::new());
}

#[test]
fn plan_append_only_on_creation() {
    // Post creation runs the same algorithm with an empty prior set.
    let existing: Vec<i32> = Vec::new();
    let resolved = vec![9, 8, 9];
    let plan = plan_updates(&existing, &resolved);
    assert_eq!(plan.to_add, vec![9, 8]);
    assert_eq!(plan.to_remove, Vec::<i32>::new());
}

#[test]
fn plan_is_idempotent() {
    let existing = vec![1, 2];
    let resolved = vec![2, 3];
    let first = plan_updates(&existing, &resolved);
    assert_eq!(first.to_add, vec![3]);
    assert_eq!(first.to_remove, vec![1]);

    // Apply the plan: keep what is not removed, then add.
    let mut converged: Vec<i32> =
        existing.iter().copied().filter(|x| !first.to_remove.contains(x)).collect();
    converged.extend(first.to_add.iter().copied());
    assert_eq!(converged, vec![2, 3]);

    // The second run with the same resolved ids plans zero writes.
    let second = plan_updates(&converged, &resolved);
    assert_eq!(second.to_add, Vec::<i32>::new());
    assert_eq!(second.to_remove, Vec::<i32>::new());
}

#[test]
fn token_robustness_end_to_end() {
    // " a, ,b ,b" resolves to the distinct set {a, b} with one insert per
    // distinct new tag.
    let toks = tokens(" a, ,b ,b");
    assert_eq!(toks, vec!["a".to_string(), "b".to_string(), "b".to_string()]);
    let outcomes: Vec<Option<i32>> =
        toks.iter().map(|t| if t == "a" { Some(10) } else { Some(20) }).collect();
    let existing: Vec<i32> = Vec::new();
    let report = reconcile_plan(&existing, &outcomes);
    assert_eq!(report.plan.to_add, vec![10, 20]);
    assert_eq!(report.plan.to_remove, Vec::<i32>::new());
    assert_eq!(report.failed, 0);
}

#[test]
fn partial_failure_converges_the_rest() {
    // One of three tokens fails to resolve; the other two still converge
    // and the call still succeeds.
    let existing = vec![7];
    let outcomes = vec![Some(1), None, Some(3)];
    let report = reconcile_plan(&existing, &outcomes);
    assert_eq!(report.plan.to_add, vec![1, 3]);
    assert_eq!(report.plan.to_remove, vec![7]);
    assert_eq!(report.failed, 1);
}

#[test]
fn all_failures_plan_only_removals() {
    let existing = vec![4, 5];
    let outcomes: Vec<Option<i32>> = vec![None, None];
    let report = reconcile_plan(&existing, &outcomes);
    assert_eq!(report.plan.to_add, Vec::<i32>::new());
    assert_eq!(report.plan.to_remove, vec![4, 5]);
    assert_eq!(report.failed, 2);
}

#[test]
fn reconfirmed_tag_needs_no_write() {
    let existing = vec![11];
    let outcomes = vec![Some(11)];
    let report = reconcile_plan(&existing, &outcomes);
    assert_eq!(report.plan.to_add, Vec::<i32>::new());
    assert_eq!(report.plan.to_remove, Vec::<i32>::new());
    assert_eq!(report.failed, 0);
}
