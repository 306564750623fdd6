use cargo_crev::builder::build_graph;
use cargo_crev::error::Error;
use cargo_crev::graph::Graph;
use cargo_crev::package::{
    Dependency, Kind, ManifestMetadata, Node, Package, PackageId, PackageSet,
};
use cargo_crev::platform::{Cfg, CfgExpr, Platform};
use cargo_crev::resolve::Resolve;

fn id(name: &str) -> PackageId {
    PackageId::new(name, "1.0.0", "registry+https://example.org/index")
}

fn dep(name: &str, kind: Kind) -> Dependency {
    Dependency { name: name.to_string(), version_req: "^1".to_string(), kind, platform: None }
}

fn dep_on(name: &str, kind: Kind, platform: Platform) -> Dependency {
    Dependency {
        name: name.to_string(),
        version_req: "^1".to_string(),
        kind,
        platform: Some(platform),
    }
}

fn pkg(name: &str, dependencies: Vec<Dependency>) -> Package {
    let mut metadata = ManifestMetadata::empty();
    metadata.authors = vec![format!("author of {}", name)];
    metadata.license = Some("MIT".to_string());
    Package { id: id(name), metadata, dependencies }
}

fn sorted(mut ids: Vec<PackageId>) -> Vec<PackageId> {
    ids.sort();
    ids
}

/// A needs B (normal) and C (development); B and C need nothing.
fn small() -> (Resolve, PackageSet) {
    let resolve = Resolve {
        deps: vec![
            (id("a"), vec![id("b"), id("c")]),
            (id("b"), vec![]),
            (id("c"), vec![]),
        ],
        replacements: vec![],
    };
    let packages = PackageSet {
        packages: vec![
            pkg("a", vec![dep("b", Kind::Normal), dep("c", Kind::Development)]),
            pkg("b", vec![]),
            pkg("c", vec![]),
        ],
        failed: vec![],
    };
    (resolve, packages)
}

fn build(resolve: &Resolve, packages: &PackageSet, roots: &[PackageId]) -> Graph {
    build_graph(resolve, packages, roots, None, None).unwrap()
}

#[test]
fn scenario_three_packages() {
    let (resolve, packages) = small();
    let g = build(&resolve, &packages, &[id("a")]);
    assert_eq!(sorted(g.get_all_pkg_ids()), vec![id("a"), id("b"), id("c")]);
    let mut edges = g.get_edges_of(&id("a"));
    edges.sort_by(|x, y| x.0.cmp(&y.0));
    assert_eq!(edges, vec![(id("b"), Kind::Normal), (id("c"), Kind::Development)]);
    assert_eq!(sorted(g.get_recursive_dependencies_of(&id("a")).ids), vec![id("b"), id("c")]);
    assert_eq!(g.get_dependencies_of(&id("b")), Vec::<PackageId>::new());
    assert_eq!(g.get_edges_of(&id("b")), Vec::<(PackageId, Kind)>::new());
    assert_eq!(g.get_edges_of(&id("c")), Vec::<(PackageId, Kind)>::new());
}

#[test]
fn direct_dependencies_come_last_added_first() {
    let (resolve, packages) = small();
    let g = build(&resolve, &packages, &[id("a")]);
    assert_eq!(g.get_dependencies_of(&id("a")), vec![id("c"), id("b")]);
    assert_eq!(
        g.get_edges_of(&id("a")),
        vec![(id("c"), Kind::Development), (id("b"), Kind::Normal)]
    );
}

#[test]
fn all_identities_hold_the_roots() {
    let (resolve, packages) = small();
    let roots = vec![id("b"), id("a")];
    let g = build(&resolve, &packages, &roots);
    let all = g.get_all_pkg_ids();
    for root in &roots {
        assert!(all.contains(root));
    }
    // the roots get their nodes first, in their order
    assert_eq!(all, vec![id("b"), id("a"), id("c")]);
}

#[test]
fn a_root_listed_twice_gets_one_node() {
    let (resolve, packages) = small();
    let g = build(&resolve, &packages, &[id("b"), id("b")]);
    assert_eq!(g.get_all_pkg_ids(), vec![id("b")]);
}

#[test]
fn no_roots_give_an_empty_graph() {
    let (resolve, packages) = small();
    let g = build(&resolve, &packages, &[]);
    assert_eq!(g.get_all_pkg_ids(), Vec::<PackageId>::new());
    assert!(!g.contains(&id("a")));
}

#[test]
fn only_what_the_roots_reach_is_in_the_graph() {
    let (resolve, packages) = small();
    let g = build(&resolve, &packages, &[id("c")]);
    assert_eq!(g.get_all_pkg_ids(), vec![id("c")]);
    assert!(g.contains(&id("c")));
    assert!(!g.contains(&id("a")));
}

#[test]
fn every_dependency_lists_its_dependent() {
    let (resolve, packages) = small();
    let g = build(&resolve, &packages, &[id("a")]);
    for p in g.get_all_pkg_ids() {
        for d in g.get_dependencies_of(&p) {
            assert!(g.get_reverse_dependencies_of(&d).contains(&p));
        }
    }
    assert_eq!(g.get_reverse_dependencies_of(&id("b")), vec![id("a")]);
    assert_eq!(g.get_reverse_dependencies_of(&id("a")), Vec::<PackageId>::new());
}

#[test]
fn queries_on_an_unknown_package_are_empty() {
    let (resolve, packages) = small();
    let g = build(&resolve, &packages, &[id("a")]);
    assert_eq!(g.get_dependencies_of(&id("zzz")), Vec::<PackageId>::new());
    assert_eq!(g.get_reverse_dependencies_of(&id("zzz")), Vec::<PackageId>::new());
    assert_eq!(g.get_edges_of(&id("zzz")), Vec::<(PackageId, Kind)>::new());
}

#[test]
fn identity_is_name_version_and_source() {
    let (resolve, packages) = small();
    let g = build(&resolve, &packages, &[id("a")]);
    assert!(!g.contains(&PackageId::new("a", "1.0.1", "registry+https://example.org/index")));
    assert!(!g.contains(&PackageId::new("a", "1.0.0", "git+https://example.org/a")));
    assert!(g.contains(&PackageId::new("a", "1.0.0", "registry+https://example.org/index")));
}

/// A and B need each other; B also needs C.
fn cyclic() -> (Resolve, PackageSet) {
    let resolve = Resolve {
        deps: vec![(id("a"), vec![id("b")]), (id("b"), vec![id("a"), id("c")]), (id("c"), vec![])],
        replacements: vec![],
    };
    let packages = PackageSet {
        packages: vec![
            pkg("a", vec![dep("b", Kind::Normal)]),
            pkg("b", vec![dep("a", Kind::Development), dep("c", Kind::Build)]),
            pkg("c", vec![]),
        ],
        failed: vec![],
    };
    (resolve, packages)
}

#[test]
fn closure_leaves_the_root_out_of_a_cycle() {
    let (resolve, packages) = cyclic();
    let g = build(&resolve, &packages, &[id("a")]);
    let closure = g.get_recursive_dependencies_of(&id("a"));
    assert!(!closure.ids.contains(&id("a")));
    assert_eq!(sorted(closure.ids), vec![id("b"), id("c")]);
    assert_eq!(closure.dangling, None);
    let closure = g.get_recursive_dependencies_of(&id("b"));
    assert_eq!(sorted(closure.ids), vec![id("a"), id("c")]);
    assert_eq!(g.get_recursive_dependencies_of(&id("c")).ids, Vec::<PackageId>::new());
}

#[test]
fn closure_is_the_same_when_asked_twice() {
    let (resolve, packages) = cyclic();
    let g = build(&resolve, &packages, &[id("a")]);
    let first = g.get_recursive_dependencies_of(&id("a"));
    let second = g.get_recursive_dependencies_of(&id("a"));
    assert_eq!(first.ids, second.ids);
    assert_eq!(first.ids.len(), 2);
}

#[test]
fn closure_comes_in_node_order() {
    let (resolve, packages) = cyclic();
    let g = build(&resolve, &packages, &[id("a")]);
    assert_eq!(g.get_all_pkg_ids(), vec![id("a"), id("b"), id("c")]);
    assert_eq!(g.get_recursive_dependencies_of(&id("b")).ids, vec![id("a"), id("c")]);
}

#[test]
fn closure_of_an_unknown_package_is_empty_and_says_so() {
    let (resolve, packages) = small();
    let g = build(&resolve, &packages, &[id("a")]);
    let closure = g.get_recursive_dependencies_of(&id("ghost"));
    assert_eq!(closure.ids, Vec::<PackageId>::new());
    assert_eq!(closure.dangling, Some(id("ghost")));
    // the rest of the graph still answers
    assert_eq!(sorted(g.get_recursive_dependencies_of(&id("a")).ids), vec![id("b"), id("c")]);
}

#[test]
fn kinds_are_those_of_the_declarations() {
    let resolve = Resolve {
        deps: vec![(id("a"), vec![id("b"), id("c"), id("d")])],
        replacements: vec![],
    };
    let packages = PackageSet {
        packages: vec![
            pkg(
                "a",
                vec![
                    dep("c", Kind::Normal),
                    dep("b", Kind::Development),
                    dep("d", Kind::Build),
                ],
            ),
            pkg("b", vec![]),
            pkg("c", vec![]),
            pkg("d", vec![]),
        ],
        failed: vec![],
    };
    let g = build(&resolve, &packages, &[id("a")]);
    let edges = g.get_edges_of(&id("a"));
    assert_eq!(edges.len(), 3);
    assert!(edges.contains(&(id("b"), Kind::Development)));
    assert!(edges.contains(&(id("c"), Kind::Normal)));
    assert!(edges.contains(&(id("d"), Kind::Build)));
    assert!(!edges.contains(&(id("b"), Kind::Normal)));
    assert!(!edges.contains(&(id("c"), Kind::Development)));
}

#[test]
fn one_edge_for_each_declaration_that_matches() {
    let resolve = Resolve { deps: vec![(id("a"), vec![id("b")])], replacements: vec![] };
    let packages = PackageSet {
        packages: vec![
            pkg("a", vec![dep("b", Kind::Normal), dep("b", Kind::Build), dep("x", Kind::Normal)]),
            pkg("b", vec![]),
        ],
        failed: vec![],
    };
    let g = build(&resolve, &packages, &[id("a")]);
    assert_eq!(g.get_edges_of(&id("a")), vec![(id("b"), Kind::Build), (id("b"), Kind::Normal)]);
    assert_eq!(g.get_dependencies_of(&id("a")), vec![id("b"), id("b")]);
    assert_eq!(g.get_reverse_dependencies_of(&id("b")), vec![id("a"), id("a")]);
    assert_eq!(g.get_recursive_dependencies_of(&id("a")).ids, vec![id("b")]);
}

#[test]
fn a_chosen_package_that_no_declaration_matches_has_a_node_and_no_edge() {
    let resolve = Resolve {
        deps: vec![(id("a"), vec![id("b"), id("c")]), (id("c"), vec![id("d")])],
        replacements: vec![],
    };
    let packages = PackageSet {
        packages: vec![
            pkg("a", vec![dep("b", Kind::Normal)]),
            pkg("b", vec![]),
            pkg("c", vec![dep("d", Kind::Build)]),
            pkg("d", vec![]),
        ],
        failed: vec![],
    };
    let g = build(&resolve, &packages, &[id("a")]);
    assert_eq!(g.get_all_pkg_ids(), vec![id("a"), id("b"), id("c"), id("d")]);
    assert_eq!(g.get_dependencies_of(&id("a")), vec![id("b")]);
    assert_eq!(g.get_reverse_dependencies_of(&id("c")), Vec::<PackageId>::new());
    // what c was given is walked all the same
    assert_eq!(g.get_edges_of(&id("c")), vec![(id("d"), Kind::Build)]);
    assert_eq!(g.get_recursive_dependencies_of(&id("a")).ids, vec![id("b")]);
}

#[test]
fn one_root_no_declaration_one_chosen_package() {
    let resolve = Resolve { deps: vec![(id("a"), vec![id("b")])], replacements: vec![] };
    let packages = PackageSet { packages: vec![pkg("a", vec![]), pkg("b", vec![])], failed: vec![] };
    let g = build(&resolve, &packages, &[id("a")]);
    assert_eq!(g.get_all_pkg_ids(), vec![id("a"), id("b")]);
    assert_eq!(g.get_edges_of(&id("a")), Vec::<(PackageId, Kind)>::new());
}

#[test]
fn a_chosen_package_without_an_edge_still_needs_its_manifest() {
    let resolve = Resolve { deps: vec![(id("a"), vec![id("b"), id("c")])], replacements: vec![] };
    let packages = PackageSet {
        packages: vec![pkg("a", vec![dep("b", Kind::Normal)]), pkg("b", vec![])],
        failed: vec![],
    };
    let err = build_graph(&resolve, &packages, &[id("a")], None, None).unwrap_err();
    assert_eq!(err, Error::MetadataNotFound(id("c")));
    let packages = PackageSet {
        packages: vec![pkg("a", vec![dep("b", Kind::Normal)]), pkg("b", vec![])],
        failed: vec![id("c")],
    };
    let err = build_graph(&resolve, &packages, &[id("a")], None, None).unwrap_err();
    assert_eq!(err, Error::FetchFailed(id("c")));
}

#[test]
fn a_version_outside_the_requirement_does_not_match() {
    let resolve = Resolve { deps: vec![(id("a"), vec![id("b")])], replacements: vec![] };
    let mut wants_two = dep("b", Kind::Normal);
    wants_two.version_req = "^2".to_string();
    let packages =
        PackageSet { packages: vec![pkg("a", vec![wants_two]), pkg("b", vec![])], failed: vec![] };
    let g = build(&resolve, &packages, &[id("a")]);
    // b was chosen, so it has its node; no requirement is met, so no edge
    assert_eq!(g.get_all_pkg_ids(), vec![id("a"), id("b")]);
    assert_eq!(g.get_dependencies_of(&id("a")), Vec::<PackageId>::new());
    assert_eq!(g.get_reverse_dependencies_of(&id("b")), Vec::<PackageId>::new());
}

#[test]
fn requirements_are_read_as_semver_reads_them() {
    let a = pkg("a", vec![]);
    let cases = [
        ("^1", "1.0.0", true),
        ("^1.2", "1.1.9", false),
        ("~1.2.3", "1.2.9", true),
        ("~1.2.3", "1.3.0", false),
        (">= 1.0.0, < 2.0.0", "1.9.9", true),
        (">= 1.0.0, < 2.0.0", "2.0.0", false),
        ("=1.0.0", "1.0.0", true),
        ("*", "0.0.1", true),
        ("^1", "1.1.0-beta", false),
        ("not a requirement", "1.0.0", false),
        ("^1", "not a version", false),
    ];
    for (req, version, expected) in cases {
        let d = Dependency {
            name: "b".to_string(),
            version_req: req.to_string(),
            kind: Kind::Normal,
            platform: None,
        };
        let b = PackageId::new("b", version, "anywhere");
        assert_eq!(d.matches_ignoring_source(&b), expected, "{} against {}", req, version);
    }
    assert_eq!(a.dependencies.len(), 0);
}

#[test]
fn matching_ignores_the_source_and_needs_the_name() {
    let d = dep("b", Kind::Normal);
    assert!(d.matches_ignoring_source(&PackageId::new("b", "1.4.0", "git+https://x")));
    assert!(d.matches_ignoring_source(&PackageId::new("b", "1.4.0", "registry")));
    assert!(!d.matches_ignoring_source(&PackageId::new("bb", "1.4.0", "registry")));
}

#[test]
fn verdict_and_name_decide_a_match() {
    let b = id("b");
    let name = "b".to_string();
    let other = "c".to_string();
    assert!(Dependency::matches_with_verdict(&name, &b, Some(true)));
    assert!(!Dependency::matches_with_verdict(&name, &b, Some(false)));
    assert!(!Dependency::matches_with_verdict(&name, &b, None));
    assert!(!Dependency::matches_with_verdict(&other, &b, Some(true)));
}

#[test]
fn a_replacement_takes_the_place_of_the_chosen_package() {
    let patched = PackageId::new("b", "1.0.0", "path+file:///patched/b");
    let resolve = Resolve {
        deps: vec![(id("a"), vec![id("b")]), (patched.clone(), vec![id("c")])],
        replacements: vec![(id("b"), patched.clone())],
    };
    let packages = PackageSet {
        packages: vec![
            pkg("a", vec![dep("b", Kind::Normal)]),
            Package {
                id: patched.clone(),
                metadata: ManifestMetadata::empty(),
                dependencies: vec![dep("c", Kind::Normal)],
            },
            pkg("c", vec![]),
        ],
        failed: vec![],
    };
    let g = build(&resolve, &packages, &[id("a")]);
    assert_eq!(g.get_all_pkg_ids(), vec![id("a"), patched.clone(), id("c")]);
    assert_eq!(g.get_dependencies_of(&id("a")), vec![patched.clone()]);
    assert!(!g.contains(&id("b")));
    assert_eq!(g.get_dependencies_of(&patched), vec![id("c")]);
    assert_eq!(resolve.replacement(&id("b")), Some(&patched));
    assert_eq!(resolve.replacement(&id("a")), None);
    assert_eq!(resolve.deps_not_replaced(&id("a")), &[id("b")][..]);
    assert_eq!(resolve.deps_not_replaced(&id("zzz")), &[][..]);
}

fn windows_only() -> Platform {
    Platform::Cfg(CfgExpr::Value(Cfg::Name("windows".to_string())))
}

fn linux_cfgs() -> Vec<Cfg> {
    vec![
        Cfg::Name("unix".to_string()),
        Cfg::KeyPair("target_os".to_string(), "linux".to_string()),
        Cfg::KeyPair("target_arch".to_string(), "x86_64".to_string()),
    ]
}

fn with_windows_dep() -> (Resolve, PackageSet) {
    let resolve = Resolve { deps: vec![(id("a"), vec![id("b"), id("w")])], replacements: vec![] };
    let packages = PackageSet {
        packages: vec![
            pkg("a", vec![dep("b", Kind::Normal), dep_on("w", Kind::Normal, windows_only())]),
            pkg("b", vec![]),
            pkg("w", vec![]),
        ],
        failed: vec![],
    };
    (resolve, packages)
}

#[test]
fn a_windows_dependency_has_no_edge_on_linux() {
    let (resolve, packages) = with_windows_dep();
    let cfgs = linux_cfgs();
    let g = build_graph(
        &resolve,
        &packages,
        &[id("a")],
        Some("x86_64-unknown-linux-gnu"),
        Some(&cfgs[..]),
    )
    .unwrap();
    assert_eq!(g.get_dependencies_of(&id("a")), vec![id("b")]);
    assert_eq!(g.get_edges_of(&id("a")), vec![(id("b"), Kind::Normal)]);
    assert_eq!(g.get_reverse_dependencies_of(&id("w")), Vec::<PackageId>::new());
    // the platform filter rejects edges, not nodes
    assert!(g.contains(&id("w")));
    assert_eq!(g.get_all_pkg_ids(), vec![id("a"), id("b"), id("w")]);
}

#[test]
fn without_a_target_every_dependency_has_its_edge() {
    let (resolve, packages) = with_windows_dep();
    let cfgs = linux_cfgs();
    let g = build_graph(&resolve, &packages, &[id("a")], None, Some(&cfgs[..])).unwrap();
    assert_eq!(g.get_dependencies_of(&id("a")), vec![id("w"), id("b")]);
    let g = build_graph(&resolve, &packages, &[id("a")], None, None).unwrap();
    assert_eq!(g.get_dependencies_of(&id("a")), vec![id("w"), id("b")]);
}

#[test]
fn a_windows_dependency_has_its_edge_on_windows() {
    let (resolve, packages) = with_windows_dep();
    let cfgs = vec![Cfg::Name("windows".to_string())];
    let g = build_graph(
        &resolve,
        &packages,
        &[id("a")],
        Some("x86_64-pc-windows-msvc"),
        Some(&cfgs[..]),
    )
    .unwrap();
    assert_eq!(g.get_dependencies_of(&id("a")), vec![id("w"), id("b")]);
}

#[test]
fn a_condition_is_not_met_by_an_unknown_configuration() {
    let (resolve, packages) = with_windows_dep();
    let g =
        build_graph(&resolve, &packages, &[id("a")], Some("x86_64-pc-windows-msvc"), None).unwrap();
    assert_eq!(g.get_dependencies_of(&id("a")), vec![id("b")]);
}

#[test]
fn a_missing_manifest_stops_the_build() {
    let resolve = Resolve { deps: vec![(id("a"), vec![id("b")])], replacements: vec![] };
    let packages =
        PackageSet { packages: vec![pkg("a", vec![dep("b", Kind::Normal)])], failed: vec![] };
    let err = build_graph(&resolve, &packages, &[id("a")], None, None).unwrap_err();
    assert_eq!(err, Error::MetadataNotFound(id("b")));
    let err = build_graph(&resolve, &packages, &[id("zzz")], None, None).unwrap_err();
    assert_eq!(err, Error::MetadataNotFound(id("zzz")));
}

#[test]
fn a_failed_fetch_stops_the_build() {
    let resolve = Resolve { deps: vec![(id("a"), vec![id("b")])], replacements: vec![] };
    let packages = PackageSet {
        packages: vec![pkg("a", vec![dep("b", Kind::Normal)])],
        failed: vec![id("b")],
    };
    let err = build_graph(&resolve, &packages, &[id("a")], None, None).unwrap_err();
    assert_eq!(err, Error::FetchFailed(id("b")));
}

#[test]
fn a_failed_fetch_of_a_package_that_is_not_needed_does_no_harm() {
    let (resolve, mut packages) = small();
    packages.failed = vec![id("elsewhere")];
    let g = build_graph(&resolve, &packages, &[id("a")], None, None).unwrap();
    assert_eq!(g.get_all_pkg_ids().len(), 3);
}

#[test]
fn the_package_set_answers_by_identity() {
    let packages = PackageSet { packages: vec![pkg("a", vec![])], failed: vec![id("f")] };
    assert_eq!(packages.get_one(&id("a")).unwrap().id, id("a"));
    assert_eq!(packages.get_one(&id("f")), Err(Error::FetchFailed(id("f"))));
    assert_eq!(packages.get_one(&id("n")), Err(Error::MetadataNotFound(id("n"))));
}

fn node(name: &str) -> Node {
    Node { id: id(name), metadata: ManifestMetadata::empty() }
}

#[test]
fn a_graph_can_be_put_together_from_its_parts() {
    let nodes = vec![node("a"), node("b"), node("c")];
    let edges = vec![(0, 1, Kind::Normal), (1, 2, Kind::Build), (2, 0, Kind::Development)];
    let g = Graph::assemble(&nodes, &edges).unwrap();
    assert_eq!(g.get_all_pkg_ids(), vec![id("a"), id("b"), id("c")]);
    assert_eq!(g.get_dependencies_of(&id("a")), vec![id("b")]);
    assert_eq!(g.get_edges_of(&id("b")), vec![(id("c"), Kind::Build)]);
    assert_eq!(g.get_reverse_dependencies_of(&id("a")), vec![id("c")]);
    assert_eq!(g.get_recursive_dependencies_of(&id("a")).ids, vec![id("b"), id("c")]);
    assert_eq!(g.get_recursive_dependencies_of(&id("c")).ids, vec![id("a"), id("b")]);
}

#[test]
fn an_edge_from_a_node_to_itself_shows_both_ways() {
    let nodes = vec![node("a"), node("b")];
    let edges = vec![(0, 0, Kind::Normal), (0, 1, Kind::Normal)];
    let g = Graph::assemble(&nodes, &edges).unwrap();
    assert_eq!(g.get_dependencies_of(&id("a")), vec![id("b"), id("a")]);
    assert_eq!(g.get_reverse_dependencies_of(&id("a")), vec![id("a")]);
    assert_eq!(g.get_recursive_dependencies_of(&id("a")).ids, vec![id("b")]);
}

#[test]
fn there_is_no_graph_with_two_nodes_of_one_package() {
    let nodes = vec![node("a"), node("b"), node("a")];
    assert!(Graph::assemble(&nodes, &[]).is_none());
}

#[test]
fn there_is_no_graph_with_an_edge_to_nowhere() {
    let nodes = vec![node("a"), node("b")];
    assert!(Graph::assemble(&nodes, &[(0, 2, Kind::Normal)]).is_none());
    assert!(Graph::assemble(&nodes, &[(2, 0, Kind::Normal)]).is_none());
    assert!(Graph::assemble(&[], &[(0, 0, Kind::Normal)]).is_none());
    assert!(Graph::assemble(&[], &[]).is_some());
}

#[test]
fn a_long_chain_is_walked_to_its_end() {
    let names: Vec<String> = (0..200).map(|i| format!("p{:03}", i)).collect();
    let nodes: Vec<Node> = names.iter().map(|n| node(n)).collect();
    let mut edges: Vec<(usize, usize, Kind)> = (0..199).map(|i| (i, i + 1, Kind::Normal)).collect();
    edges.push((199, 0, Kind::Normal));
    let g = Graph::assemble(&nodes, &edges).unwrap();
    let closure = g.get_recursive_dependencies_of(&id("p100"));
    assert_eq!(closure.ids.len(), 199);
    assert!(!closure.ids.contains(&id("p100")));
}
