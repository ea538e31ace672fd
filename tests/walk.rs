use std::collections::BTreeMap;

use async_placeholder::descriptor::ComponentDescriptor;
use async_placeholder::traversal::{
    entry_action, has_descriptor_extension, join_path, traverse_some_components_json, EntryAction,
    Traversal,
};

fn s(x: &str) -> String {
    x.to_string()
}

/// Walks an in-memory tree (directory path to entry names; a path that is a
/// key is a directory) and returns the listed directories and the descriptors met.
fn walk(tree: &BTreeMap<String, Vec<String>>, root: &str, ignore: &Vec<String>) -> (Vec<String>, Vec<String>) {
    let mut t = Traversal::new(root);
    let mut listed = vec![];
    let mut injected = vec![];
    while let Some(dir) = t.next_directory(ignore) {
        listed.push(dir.clone());
        for name in tree.get(&dir).cloned().unwrap_or_default() {
            match entry_action(&dir, &name) {
                EntryAction::Inject(p) => injected.push(p),
                EntryAction::Probe(p) => {
                    if tree.contains_key(&p) {
                        t.push_directory(p);
                    }
                }
            }
        }
    }
    assert!(t.is_done());
    (listed, injected)
}

fn tree(list: &[(&str, &[&str])]) -> BTreeMap<String, Vec<String>> {
    list.iter().map(|(k, v)| (s(k), v.iter().map(|x| s(x)).collect())).collect()
}

#[test]
fn ignored_middle_level_is_not_descended() {
    let t = tree(&[
        ("dist", &["a", "app.json"]),
        ("dist/a", &["skipme", "c.json"]),
        ("dist/a/skipme", &["deep", "x.json"]),
        ("dist/a/skipme/deep", &["y.json"]),
    ]);
    let (listed, injected) = walk(&t, "dist", &vec![s("skipme")]);
    assert_eq!(listed, vec![s("dist"), s("dist/a")]);
    assert_eq!(injected, vec![s("dist/app.json"), s("dist/a/c.json")]);
}

#[test]
fn walk_is_level_by_level() {
    let t = tree(&[
        ("r", &["a", "b"]),
        ("r/a", &["c", "a.json"]),
        ("r/b", &["b.json"]),
        ("r/a/c", &["c.json"]),
    ]);
    let (listed, injected) = walk(&t, "r", &vec![]);
    assert_eq!(listed, vec![s("r"), s("r/a"), s("r/b"), s("r/a/c")]);
    assert_eq!(injected, vec![s("r/a/a.json"), s("r/b/b.json"), s("r/a/c/c.json")]);
}

#[test]
fn ignored_root_lists_nothing() {
    let t = tree(&[("dist", &["a.json"])]);
    let (listed, injected) = walk(&t, "dist", &vec![s("dis")]);
    assert!(listed.is_empty());
    assert!(injected.is_empty());
}

#[test]
fn entry_actions() {
    assert!(matches!(entry_action("d", "x.json"), EntryAction::Inject(p) if p == "d/x.json"));
    assert!(matches!(entry_action("d", "x.js"), EntryAction::Probe(p) if p == "d/x.js"));
    assert!(has_descriptor_extension(".json"));
    assert!(!has_descriptor_extension("json"));
    assert_eq!(join_path("a/b", "c"), "a/b/c");
}

#[test]
fn incremental_selection_skips_ignored_paths() {
    let d = ComponentDescriptor { using_components: Some(vec![]), component_placeholder: None };
    let files = vec![
        (s("pages/a.json"), Some(d)),
        (s("fuViewPackage/b.json"), None),
        (s("pages/c.json"), None),
    ];
    let out = traverse_some_components_json("dist", files, &vec![s("fuViewPackage")]);
    assert_eq!(out.len(), 2);
    assert_eq!(out[0].0, "dist/pages/a.json");
    assert_eq!(out[0].1.as_ref().unwrap().using_components, Some(vec![]));
    assert_eq!(out[1].0, "dist/pages/c.json");
    assert!(out[1].1.is_none());
}

#[test]
fn incremental_selection_keeps_each_item() {
    let files = vec![(s("a.json"), 1u32), (s("a.json"), 2u32), (s("skip/b.json"), 3u32)];
    let out = traverse_some_components_json("d", files, &vec![s("skip")]);
    assert_eq!(out, vec![(s("d/a.json"), 1u32), (s("d/a.json"), 2u32)]);
}
