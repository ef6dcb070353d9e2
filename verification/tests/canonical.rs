use index_sync::canonical::{compare_dependencies, sort_dependencies};
use index_sync::order::{compare_bytes, compare_text, compare_texts, Order};
use index_sync::record::{Crate, Dependency, DependencyKind, Feature};
use index_sync::regenerate_index::{normalize, reports_progress};

fn dep(name: &str, req: &str) -> Dependency {
    Dependency {
        name: name.to_string(),
        req: req.to_string(),
        features: Vec::new(),
        optional: false,
        default_features: true,
        target: None,
        kind: Some(DependencyKind::Normal),
        package: None,
    }
}

fn record_with(deps: Vec<Dependency>) -> Crate {
    Crate {
        name: "demo".to_string(),
        vers: "1.2.3".to_string(),
        deps,
        cksum: "abcd".to_string(),
        features: vec![Feature { name: "std".to_string(), enables: vec!["serde/std".to_string()] }],
        features2: None,
        yanked: Some(false),
        links: Some("demo".to_string()),
        v: Some(2),
    }
}

#[test]
fn bytes_compare_lexicographically() {
    assert_eq!(compare_bytes(b"", b""), Order::Equal);
    assert_eq!(compare_bytes(b"", b"a"), Order::Less);
    assert_eq!(compare_bytes(b"a", b""), Order::Greater);
    assert_eq!(compare_bytes(b"ab", b"abc"), Order::Less);
    assert_eq!(compare_bytes(b"abd", b"abc"), Order::Greater);
    assert_eq!(compare_bytes(b"abc", b"abc"), Order::Equal);
    assert_eq!(compare_bytes(&[0x7f], &[0x80]), Order::Less);
}

#[test]
fn text_compares_as_the_standard_library_does() {
    let words = ["", "a", "B", "serde", "serde_json", "été", "z", "日本"];
    for a in words {
        for b in words {
            let expected = match a.cmp(b) {
                std::cmp::Ordering::Less => Order::Less,
                std::cmp::Ordering::Equal => Order::Equal,
                std::cmp::Ordering::Greater => Order::Greater,
            };
            assert_eq!(compare_text(a, b), expected);
        }
    }
}

#[test]
fn lists_of_text_compare_lexicographically() {
    let l = |items: &[&str]| items.iter().map(|s| s.to_string()).collect::<Vec<String>>();
    assert_eq!(compare_texts(&l(&[]), &l(&[])), Order::Equal);
    assert_eq!(compare_texts(&l(&["a"]), &l(&["a", "b"])), Order::Less);
    assert_eq!(compare_texts(&l(&["b"]), &l(&["a", "b"])), Order::Greater);
    assert_eq!(compare_texts(&l(&["a", "c"]), &l(&["a", "b"])), Order::Greater);
}

#[test]
fn dependencies_compare_field_by_field() {
    let base = dep("log", "^0.4");
    assert_eq!(compare_dependencies(&base, &base.clone()), Order::Equal);
    assert_eq!(compare_dependencies(&dep("log", "^0.4"), &dep("serde", "^0.1")), Order::Less);
    assert_eq!(compare_dependencies(&dep("log", "^0.4"), &dep("log", "^0.3")), Order::Greater);

    let mut with_feature = base.clone();
    with_feature.features = vec!["std".to_string()];
    assert_eq!(compare_dependencies(&base, &with_feature), Order::Less);

    let mut optional = base.clone();
    optional.optional = true;
    assert_eq!(compare_dependencies(&base, &optional), Order::Less);

    let mut no_defaults = base.clone();
    no_defaults.default_features = false;
    assert_eq!(compare_dependencies(&no_defaults, &base), Order::Less);

    let mut targeted = base.clone();
    targeted.target = Some("cfg(unix)".to_string());
    assert_eq!(compare_dependencies(&base, &targeted), Order::Less);

    let mut dev = base.clone();
    dev.kind = Some(DependencyKind::Dev);
    let mut build = base.clone();
    build.kind = Some(DependencyKind::Build);
    let mut unknown = base.clone();
    unknown.kind = None;
    assert_eq!(compare_dependencies(&base, &build), Order::Less);
    assert_eq!(compare_dependencies(&build, &dev), Order::Less);
    assert_eq!(compare_dependencies(&unknown, &base), Order::Less);

    let mut renamed = base.clone();
    renamed.package = Some("log-impl".to_string());
    assert_eq!(compare_dependencies(&base, &renamed), Order::Less);
    assert_eq!(compare_dependencies(&renamed, &base), Order::Greater);
}

#[test]
fn dependencies_are_sorted_as_the_derived_order_sorts_tuples() {
    let deps = vec![
        dep("serde", "^1"),
        dep("log", "^0.4"),
        dep("serde", "^0.9"),
        dep("anyhow", "^1"),
        dep("log", "^0.4"),
    ];
    let mut expected: Vec<(String, String)> =
        deps.iter().map(|d| (d.name.clone(), d.req.clone())).collect();
    expected.sort();
    let sorted = sort_dependencies(deps);
    let got: Vec<(String, String)> =
        sorted.iter().map(|d| (d.name.clone(), d.req.clone())).collect();
    assert_eq!(got, expected);
    assert_eq!(
        got,
        vec![
            ("anyhow".to_string(), "^1".to_string()),
            ("log".to_string(), "^0.4".to_string()),
            ("log".to_string(), "^0.4".to_string()),
            ("serde".to_string(), "^0.9".to_string()),
            ("serde".to_string(), "^1".to_string()),
        ]
    );
}

#[test]
fn sorting_nothing_gives_nothing() {
    assert_eq!(sort_dependencies(Vec::new()), Vec::new());
}

#[test]
fn normalize_sorts_dependencies_and_keeps_the_rest() {
    let first = record_with(vec![dep("b", "^1"), dep("a", "^2"), dep("a", "^1")]);
    let mut second = record_with(vec![dep("z", "^1")]);
    second.vers = "1.2.4".to_string();
    let out = normalize(vec![first.clone(), second.clone()]);
    assert_eq!(out.len(), 2);
    assert_eq!(out[0].deps, vec![dep("a", "^1"), dep("a", "^2"), dep("b", "^1")]);
    assert_eq!(out[0].name, first.name);
    assert_eq!(out[0].vers, first.vers);
    assert_eq!(out[0].cksum, first.cksum);
    assert_eq!(out[0].features, first.features);
    assert_eq!(out[0].features2, first.features2);
    assert_eq!(out[0].yanked, first.yanked);
    assert_eq!(out[0].links, first.links);
    assert_eq!(out[0].v, first.v);
    assert_eq!(out[1], second);
}

#[test]
fn normalizing_twice_is_normalizing_once() {
    let records = vec![
        record_with(vec![dep("tokio", "^1"), dep("bytes", "^1"), dep("futures", "^0.3")]),
        record_with(vec![]),
        record_with(vec![dep("b", "^1"), dep("a", "^1")]),
    ];
    let once = normalize(records);
    let twice = normalize(once.clone());
    assert_eq!(twice, once);
}

#[test]
fn progress_is_reported_every_fifty_files() {
    assert!(reports_progress(0));
    assert!(!reports_progress(1));
    assert!(!reports_progress(49));
    assert!(reports_progress(50));
    assert!(!reports_progress(51));
    assert!(reports_progress(100));
}
