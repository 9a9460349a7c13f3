use renparkn::plan::{build_plan, PlanEntry, RenamePlan};

fn entry(original: &str, candidate: Option<&str>) -> PlanEntry {
    PlanEntry { original: original.to_string(), candidate: candidate.map(String::from) }
}

fn files(paths: &[&str]) -> Vec<String> {
    paths.iter().map(|p| p.to_string()).collect()
}

#[test]
fn empty_plan_has_no_lines() {
    let plan = RenamePlan::new();
    assert_eq!(plan.len(), 0);
    assert!(plan.entries().is_empty());
    assert_eq!(plan.position("a"), None);
    assert_eq!(build_plan(&Vec::new(), "/R", "").len(), 0);
}

#[test]
fn plan_has_one_line_per_file_in_order() {
    let found = files(&["/R/Vacation/img042.png", "/R/Trip/README", "/R/Trip/b2.jpg"]);
    let plan = build_plan(&found, "/R", "");
    assert_eq!(plan.len(), 3);
    assert_eq!(plan.entries()[0], entry("/R/Vacation/img042.png", Some("/R/Vacation 42.png")));
    assert_eq!(plan.entries()[1], entry("/R/Trip/README", Some("/R/Trip 99.9.")));
    assert_eq!(plan.entries()[2], entry("/R/Trip/b2.jpg", Some("/R/Trip 2.jpg")));
}

#[test]
fn file_that_cannot_be_named_stays_in_the_plan_without_candidate() {
    let found = files(&["/a1.png", "/R/d/a1.png"]);
    let plan = build_plan(&found, "/R", "");
    assert_eq!(plan.len(), 2);
    assert_eq!(plan.entries()[0], entry("/a1.png", None));
    assert_eq!(plan.entries()[1], entry("/R/d/a1.png", Some("/R/d 1.png")));
}

#[test]
fn file_listed_twice_is_planned_once() {
    let found = files(&["/R/a/x1.png", "/R/b/x2.png", "/R/a/x1.png"]);
    let plan = build_plan(&found, "/R", "");
    assert_eq!(plan.len(), 2);
    assert_eq!(plan.entries()[0], entry("/R/a/x1.png", Some("/R/a 1.png")));
    assert_eq!(plan.entries()[1], entry("/R/b/x2.png", Some("/R/b 2.png")));
}

#[test]
fn files_with_the_same_candidate_are_both_kept() {
    let found = files(&["/R/a/x1.png", "/R/a/y1.png"]);
    let plan = build_plan(&found, "/R", "");
    assert_eq!(plan.len(), 2);
    assert_eq!(plan.entries()[0].candidate, Some("/R/a 1.png".to_string()));
    assert_eq!(plan.entries()[1].candidate, Some("/R/a 1.png".to_string()));
}

#[test]
fn plan_uses_the_anchor() {
    let found = files(&["/R/d/2021_scan_012.jpg"]);
    let with = build_plan(&found, "/R", "scan_");
    let without = build_plan(&found, "/R", "");
    assert_eq!(with.entries()[0].candidate, Some("/R/d 12.jpg".to_string()));
    assert_eq!(without.entries()[0].candidate, Some("/R/d 2021.jpg".to_string()));
}

#[test]
fn insert_adds_a_new_file_at_the_end() {
    let mut plan = RenamePlan::new();
    plan.insert("a".to_string(), Some("x".to_string()));
    plan.insert("b".to_string(), None);
    assert_eq!(plan.len(), 2);
    assert_eq!(plan.entries()[0], entry("a", Some("x")));
    assert_eq!(plan.entries()[1], entry("b", None));
    assert_eq!(plan.position("a"), Some(0));
    assert_eq!(plan.position("b"), Some(1));
    assert_eq!(plan.position("c"), None);
}

#[test]
fn insert_replaces_the_candidate_of_a_known_file() {
    let mut plan = RenamePlan::new();
    plan.insert("a".to_string(), Some("x".to_string()));
    plan.insert("b".to_string(), Some("y".to_string()));
    plan.insert("a".to_string(), None);
    assert_eq!(plan.len(), 2);
    assert_eq!(plan.entries()[0], entry("a", None));
    assert_eq!(plan.entries()[1], entry("b", Some("y")));
    plan.insert("b".to_string(), Some("z".to_string()));
    assert_eq!(plan.len(), 2);
    assert_eq!(plan.entries()[1], entry("b", Some("z")));
}
