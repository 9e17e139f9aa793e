use deppatcher::graph::{
    GitPin, PkgGraph, PkgLink, PkgNode, PkgSource, SoftPatchError, build_override_output,
    collect_graph_records,
};
use deppatcher::source::{DirectSource, Outcome};

const CRATES_IO: &str = "https://github.com/rust-lang/crates.io-index";

fn registry_node(name: &str, version: &str, links: Vec<PkgLink>) -> PkgNode {
    PkgNode {
        name: name.to_string(),
        version: version.to_string(),
        source: PkgSource::Registry { url: CRATES_IO.to_string() },
        links,
    }
}

fn normal_link(to: usize) -> PkgLink {
    PkgLink { to, normal: true, build: false, dev: false }
}

fn no_source() -> DirectSource {
    DirectSource {
        version: None,
        registry: None,
        path: None,
        git: None,
        rev: None,
        tag: None,
        branch: None,
        workspace: None,
    }
}

#[test]
fn identical_package_and_source_is_decided_once() {
    // two distinct nodes carry the same (package, source) pair; both are
    // targets of qualifying edges, but only one record comes out
    let g = PkgGraph {
        nodes: vec![
            registry_node("root", "0.1.0", vec![normal_link(1), normal_link(2)]),
            registry_node("dup", "1.0.0", vec![]),
            registry_node("dup", "1.0.0", vec![]),
        ],
        roots: vec![0],
    };
    let records = collect_graph_records(&g);
    assert_eq!(records.len(), 1);
    assert_eq!(records[0].name, "dup");
    assert_eq!(records[0].package, "dup");
    assert_eq!(records[0].source.version, Some("1.0.0".to_string()));
    assert_eq!(records[0].source.registry, Some(CRATES_IO.to_string()));
    assert_eq!(records[0].source, records[0].original_source);
}

#[test]
fn cyclic_graph_terminates_and_lists_each_target_once() {
    // 0 -> 1 -> 2 -> 0: a cycle reachable from the root
    let g = PkgGraph {
        nodes: vec![
            registry_node("a", "1", vec![normal_link(1)]),
            registry_node("b", "2", vec![normal_link(2)]),
            registry_node("c", "3", vec![normal_link(0)]),
        ],
        roots: vec![0],
    };
    let records = collect_graph_records(&g);
    let mut names: Vec<&str> = records.iter().map(|r| r.name.as_str()).collect();
    names.sort();
    assert_eq!(names, vec!["a", "b", "c"]);
}

#[test]
fn dev_only_edges_are_ignored() {
    let g = PkgGraph {
        nodes: vec![
            PkgNode {
                name: "root".to_string(),
                version: "0.1.0".to_string(),
                source: PkgSource::LocalPath { path: "/ws/root".to_string() },
                links: vec![
                    PkgLink { to: 1, normal: false, build: false, dev: true },
                    PkgLink { to: 2, normal: false, build: true, dev: false },
                ],
            },
            registry_node("devonly", "1", vec![]),
            registry_node("buildtime", "1", vec![]),
        ],
        roots: vec![0],
    };
    let records = collect_graph_records(&g);
    assert_eq!(records.len(), 1);
    assert_eq!(records[0].name, "buildtime");
}

#[test]
fn git_sources_carry_their_pin() {
    let g = PkgGraph {
        nodes: vec![
            registry_node("root", "0.1.0", vec![normal_link(1)]),
            PkgNode {
                name: "lib".to_string(),
                version: "0.5.0".to_string(),
                source: PkgSource::Git {
                    url: "https://example.invalid/lib.git".to_string(),
                    pin: GitPin::Branch("main".to_string()),
                },
                links: vec![],
            },
        ],
        roots: vec![0],
    };
    let records = collect_graph_records(&g);
    assert_eq!(records.len(), 1);
    assert_eq!(records[0].source.git, Some("https://example.invalid/lib.git".to_string()));
    assert_eq!(records[0].source.branch, Some("main".to_string()));
    assert_eq!(records[0].source.rev, None);
    assert_eq!(records[0].source.tag, None);
    assert_eq!(records[0].source.registry, None);
}

#[test]
fn overrides_group_under_the_default_registry_alias() {
    let g = PkgGraph {
        nodes: vec![
            registry_node("root", "0.1.0", vec![normal_link(1)]),
            registry_node("foo", "1.0.0", vec![]),
        ],
        roots: vec![0],
    };
    let records = collect_graph_records(&g);
    let replacement = DirectSource { path: Some("/local/foo".to_string()), ..no_source() };
    let outcomes = vec![Outcome::Replace(replacement.clone())];
    let out = build_override_output(&records, &outcomes).unwrap();
    assert_eq!(out.groups.len(), 1);
    assert_eq!(out.groups[0].key, "crates-io");
    assert_eq!(out.groups[0].entries.len(), 1);
    assert_eq!(out.groups[0].entries[0].name, "foo");
    assert_eq!(out.groups[0].entries[0].source, replacement);
    assert_eq!(out.skipped.len(), 0);
}

#[test]
fn overrides_group_git_sources_by_url() {
    let g = PkgGraph {
        nodes: vec![
            registry_node("root", "0.1.0", vec![normal_link(1), normal_link(2)]),
            PkgNode {
                name: "one".to_string(),
                version: "1".to_string(),
                source: PkgSource::Git {
                    url: "https://example.invalid/r.git".to_string(),
                    pin: GitPin::Unpinned,
                },
                links: vec![],
            },
            PkgNode {
                name: "two".to_string(),
                version: "2".to_string(),
                source: PkgSource::Git {
                    url: "https://example.invalid/r.git".to_string(),
                    pin: GitPin::Tag("v2".to_string()),
                },
                links: vec![],
            },
        ],
        roots: vec![0],
    };
    let records = collect_graph_records(&g);
    assert_eq!(records.len(), 2);
    let repl = DirectSource { path: Some("/elsewhere".to_string()), ..no_source() };
    let outcomes = vec![Outcome::Replace(repl.clone()), Outcome::Replace(repl.clone())];
    let out = build_override_output(&records, &outcomes).unwrap();
    assert_eq!(out.groups.len(), 1);
    assert_eq!(out.groups[0].key, "https://example.invalid/r.git");
    assert_eq!(out.groups[0].entries.len(), 2);
}

#[test]
fn custom_registry_is_fatal() {
    let g = PkgGraph {
        nodes: vec![
            registry_node("root", "0.1.0", vec![normal_link(1)]),
            PkgNode {
                name: "foo".to_string(),
                version: "1".to_string(),
                source: PkgSource::Registry { url: "https://example.invalid/index".to_string() },
                links: vec![],
            },
        ],
        roots: vec![0],
    };
    let records = collect_graph_records(&g);
    let outcomes = vec![Outcome::Replace(DirectSource {
        path: Some("/x".to_string()),
        ..no_source()
    })];
    match build_override_output(&records, &outcomes) {
        Err(SoftPatchError::CustomRegistry { package, registry }) => {
            assert_eq!(package, "foo");
            assert_eq!(registry, "https://example.invalid/index");
        },
        _ => panic!("a custom registry cannot be expressed in the override section"),
    }
}

#[test]
fn local_path_sources_are_skipped_with_a_diagnostic() {
    let g = PkgGraph {
        nodes: vec![
            registry_node("root", "0.1.0", vec![normal_link(1)]),
            PkgNode {
                name: "member".to_string(),
                version: "1".to_string(),
                source: PkgSource::LocalPath { path: "/ws/member".to_string() },
                links: vec![],
            },
        ],
        roots: vec![0],
    };
    let records = collect_graph_records(&g);
    let outcomes = vec![Outcome::Replace(DirectSource {
        version: Some("9".to_string()),
        ..no_source()
    })];
    let out = build_override_output(&records, &outcomes).unwrap();
    assert_eq!(out.groups.len(), 0);
    assert_eq!(out.skipped.len(), 1);
    assert_eq!(out.skipped[0].name, "member");
}

#[test]
fn unclassifiable_source_is_fatal() {
    let g = PkgGraph {
        nodes: vec![
            registry_node("root", "0.1.0", vec![normal_link(1)]),
            PkgNode {
                name: "odd".to_string(),
                version: "1".to_string(),
                source: PkgSource::Other,
                links: vec![],
            },
        ],
        roots: vec![0],
    };
    let records = collect_graph_records(&g);
    let outcomes = vec![Outcome::Replace(DirectSource {
        path: Some("/x".to_string()),
        ..no_source()
    })];
    match build_override_output(&records, &outcomes) {
        Err(SoftPatchError::UnsupportedSource { package }) => assert_eq!(package, "odd"),
        _ => panic!("a source with no classification cannot be grouped"),
    }
}

#[test]
fn unchanged_and_identical_outcomes_produce_no_override() {
    let g = PkgGraph {
        nodes: vec![
            registry_node("root", "0.1.0", vec![normal_link(1), normal_link(2)]),
            registry_node("left", "1", vec![]),
            registry_node("right", "2", vec![]),
        ],
        roots: vec![0],
    };
    let records = collect_graph_records(&g);
    assert_eq!(records.len(), 2);
    // one record is left alone, the other is "replaced" by its own source
    let outcomes = vec![
        Outcome::Unchanged,
        Outcome::Replace(records[1].source.clone()),
    ];
    let out = build_override_output(&records, &outcomes).unwrap();
    assert_eq!(out.groups.len(), 0);
    assert_eq!(out.skipped.len(), 0);
}
