use eafutil::run::{clips_dir_name, cut_jobs, is_large_tier, ledger_path, tier_dir, BoundaryPlan};
use eafutil::order::{sorted_ids, str_less};
use eafutil::tree::{branch_line, TierLink, TierTree};

fn link(id: &str, parent: Option<&str>) -> TierLink {
    TierLink { id: id.to_string(), parent: parent.map(|p| p.to_string()) }
}

fn sorted(mut v: Vec<String>) -> Vec<String> {
    v.sort();
    v
}

#[test]
fn tree_prunes_leaf_children() {
    let tiers = vec![
        link("A", None),
        link("B", Some("A")),
        link("C", Some("B")),
        link("D", None),
        link("E", Some("A")),
    ];
    let tree = TierTree::new(&tiers);
    assert_eq!(sorted(tree.ids()), vec!["A", "B", "D"]);
    assert_eq!(tree.get("A"), vec!["B".to_string(), "E".to_string()]);
    assert_eq!(tree.get("B"), vec!["C".to_string()]);
    assert!(tree.get("C").is_empty());
    assert!(tree.get("D").is_empty());
}

#[test]
fn tree_len_and_remove() {
    let tiers = vec![link("A", None), link("B", Some("A")), link("X", Some("missing"))];
    let mut tree = TierTree::new(&tiers);
    assert_eq!(sorted(tree.ids()), vec!["A", "missing"]);
    assert_eq!(tree.get("missing"), vec!["X".to_string()]);
    assert_eq!(tree.remove("A"), Some(vec!["B".to_string()]));
    assert_eq!(tree.remove("A"), None);
    assert_eq!(tree.len("missing"), 1);
}

#[test]
fn tree_prune_is_idempotent() {
    let tiers = vec![link("A", None), link("B", Some("A"))];
    let mut tree = TierTree::new(&tiers);
    tree.prune();
    assert_eq!(sorted(tree.ids()), vec!["A"]);
}

#[test]
fn run_layout() {
    assert_eq!(clips_dir_name("session"), "session_CLIPS");
    assert_eq!(tier_dir("/out/session_CLIPS", "utterance"), "/out/session_CLIPS/utterance");
    assert_eq!(ledger_path("/out/t", "utterance"), "/out/t/utterance.json");
    assert!(is_large_tier(41));
    assert!(!is_large_tier(40));
}

#[test]
fn jobs_in_cut_order() {
    let sources = vec!["/m/a.mp4".to_string(), "/m/a.wav".to_string()];
    let plans = vec![
        BoundaryPlan { start: 0, end: 10, outputs: vec!["o1.mp4".to_string(), "o1.wav".to_string()] },
        BoundaryPlan { start: 20, end: 30, outputs: vec!["o2.mp4".to_string(), "o2.wav".to_string()] },
    ];
    let jobs = cut_jobs(&sources, &plans);
    assert_eq!(jobs.len(), 4);
    assert_eq!((jobs[1].source.as_str(), jobs[1].dest.as_str(), jobs[1].start), ("/m/a.wav", "o1.wav", 0));
    assert_eq!((jobs[2].source.as_str(), jobs[2].dest.as_str(), jobs[2].end), ("/m/a.mp4", "o2.mp4", 30));
}

#[test]
fn ids_sort_by_code_point() {
    let v = vec!["b".to_string(), "B".to_string(), "ab".to_string(), "a".to_string(), "é".to_string(), "a".to_string()];
    let mut expected = v.clone();
    expected.sort();
    assert_eq!(sorted_ids(v), expected);
    assert!(str_less(&"a".to_string(), &"ab".to_string()));
    assert!(!str_less(&"ab".to_string(), &"ab".to_string()));
    assert!(str_less(&"Z".to_string(), &"a".to_string()));
}

#[test]
fn branch_lines() {
    assert_eq!(branch_line(0, "words", true), "╰─ words");
    assert_eq!(branch_line(2, "pos", false), "      ├─ pos");
}
