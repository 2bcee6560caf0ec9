use project_snapshot::order::{sort_unique, str_lt};
use project_snapshot::scan::{collect_paths, visit, CandidateEntry, EntryKind, WalkSettings};

fn texts(items: &[&str]) -> Vec<String> {
    items.iter().map(|s| s.to_string()).collect()
}

#[test]
fn strict_order_of_texts() {
    assert!(str_lt("a", "b"));
    assert!(!str_lt("b", "a"));
    assert!(!str_lt("a", "a"));
    assert!(str_lt("", "a"));
    assert!(!str_lt("a", ""));
    assert!(!str_lt("", ""));
    assert!(str_lt("a", "ab"));
    assert!(!str_lt("ab", "a"));
    assert!(str_lt("B", "a"));
    assert!(str_lt("a-b", "a/b"));
    assert!(str_lt("a/b", "a0"));
    assert!(str_lt("z", "é"));
}

#[test]
fn order_agrees_with_the_order_of_str() {
    let samples = ["", "a", "ab", "b", "A", "a/b", "a-b", "a.b", "é", "e", "日本", "z", "a\u{10FFFF}", "a\u{7f}"];
    for x in samples {
        for y in samples {
            assert_eq!(str_lt(x, y), x < y, "{:?} before {:?}", x, y);
        }
    }
}

#[test]
fn sorting_orders_and_drops_repetitions() {
    let sorted = sort_unique(texts(&["b", "a", "c", "a", "b", "ab", ""]));
    assert_eq!(sorted, texts(&["", "a", "ab", "b", "c"]));
    assert_eq!(sort_unique(texts(&[])), texts(&[]));
    assert_eq!(sort_unique(texts(&["x"])), texts(&["x"]));
}

#[test]
fn collected_paths_are_sorted_by_the_full_path() {
    let list = collect_paths(texts(&[
        "/p/src/main.rs",
        "/p/README.md",
        "/p/.gitignore",
        "/p/src-gen/a.rs",
    ]));
    assert_eq!(
        list.paths(),
        &texts(&["/p/.gitignore", "/p/README.md", "/p/src-gen/a.rs", "/p/src/main.rs"])
    );
    assert_eq!(list.len(), 4);
    assert!(!list.is_empty());
}

#[test]
fn any_order_of_arrival_gives_the_same_list() {
    let one = collect_paths(texts(&["r/c", "r/a", "r/b/x", "r/b"]));
    let other = collect_paths(texts(&["r/b", "r/b/x", "r/c", "r/a", "r/a"]));
    assert_eq!(one.paths(), other.paths());
    assert_eq!(one.paths(), &texts(&["r/a", "r/b", "r/b/x", "r/c"]));
}

#[test]
fn nothing_handed_on_gives_the_empty_list() {
    let list = collect_paths(Vec::new());
    assert!(list.is_empty());
    assert_eq!(list.len(), 0);
    assert!(list.paths().is_empty());
}

#[test]
fn only_regular_files_are_handed_on() {
    let file = visit(Some(CandidateEntry { path: "a/b.txt".to_string(), kind: EntryKind::File }));
    assert_eq!(file.emitted, Some("a/b.txt".to_string()));
    assert!(file.proceed);
    let dir = visit(Some(CandidateEntry { path: "a".to_string(), kind: EntryKind::Directory }));
    assert_eq!(dir.emitted, None);
    assert!(dir.proceed);
    let other = visit(Some(CandidateEntry { path: "a/link".to_string(), kind: EntryKind::Other }));
    assert_eq!(other.emitted, None);
    assert!(other.proceed);
}

#[test]
fn an_unreadable_entry_is_passed_over() {
    let step = visit(None);
    assert_eq!(step.emitted, None);
    assert!(step.proceed);
}

#[test]
fn the_rules_of_a_scan() {
    let settings = WalkSettings::standard();
    assert!(settings.global_rules);
    assert!(settings.repository_rules);
    assert!(settings.parent_rules);
    assert!(settings.directory_rules);
    assert!(settings.plain_rules);
    assert!(!settings.require_repository);
    assert!(!settings.skip_hidden);
    assert_eq!(settings.overrides, texts(&["!.git/"]));
}
