use async_placeholder::emitter::inject_empty_wrapper;
use async_placeholder::manifest::{rewrite_dist_app_json, SubpackageEntry};

fn entry(root: &str, pages: Option<Vec<&str>>) -> SubpackageEntry {
    SubpackageEntry {
        root: root.to_string(),
        pages: pages.map(|p| p.into_iter().map(|x| x.to_string()).collect()),
    }
}

fn describe(v: &[SubpackageEntry]) -> Vec<(String, Option<Vec<String>>)> {
    v.iter().map(|e| (e.root.clone(), e.pages.clone())).collect()
}

#[test]
fn merge_appends_only_emptied_packages() {
    let source = vec![entry("pkgB", Some(vec![])), entry("pkgC", Some(vec!["x"]))];
    let mut dist = vec![entry("pkgA", None)];
    let roots = rewrite_dist_app_json(&source, &mut dist);
    assert_eq!(roots, vec!["pkgB".to_string()]);
    assert_eq!(describe(&dist), describe(&[entry("pkgA", None), entry("pkgB", Some(vec![]))]));
}

#[test]
fn merge_keeps_source_order_and_takes_absent_pages() {
    let source = vec![
        entry("p1", None),
        entry("p2", Some(vec!["a", "b"])),
        entry("p3", Some(vec![])),
        entry("p4", None),
    ];
    let mut dist = vec![entry("main", Some(vec!["index"])), entry("pkgA", None)];
    let roots = rewrite_dist_app_json(&source, &mut dist);
    assert_eq!(roots, vec!["p1".to_string(), "p3".to_string(), "p4".to_string()]);
    let roots_in_dist: Vec<String> = dist.iter().map(|e| e.root.clone()).collect();
    assert_eq!(roots_in_dist, vec!["main", "pkgA", "p1", "p3", "p4"]);
}

#[test]
fn merge_of_nothing_changes_nothing() {
    let mut dist = vec![entry("pkgA", None)];
    let roots = rewrite_dist_app_json(&vec![], &mut dist);
    assert!(roots.is_empty());
    assert_eq!(dist.len(), 1);
}

#[test]
fn entry_copy_and_kind() {
    let e = entry("r", Some(vec!["p"]));
    let c = e.copy();
    assert_eq!(c.root, "r");
    assert_eq!(c.pages, Some(vec!["p".to_string()]));
    assert!(!e.is_async());
    assert!(entry("r", None).is_async());
    assert!(entry("r", Some(vec![])).is_async());
}

#[test]
fn placeholder_files() {
    let files = inject_empty_wrapper("dist");
    assert_eq!(files.len(), 3);
    assert_eq!(files[0], ("dist/FuEmptyWrapper.js".to_string(), "Component({})".to_string()));
    assert_eq!(
        files[1],
        (
            "dist/FuEmptyWrapper.wxml".to_string(),
            "<view style=\"display:none;\" class=\"_div\"></view>".to_string()
        )
    );
    assert_eq!(
        files[2],
        (
            "dist/FuEmptyWrapper.json".to_string(),
            "{ \"usingComponents\": {}, \"component\": true }".to_string()
        )
    );
}
