use deppatcher::engine::{DocEdit, PatchError, collect_records, freeze_manifest, patch_manifest, revert_manifest};
use deppatcher::manifest::{
    DeclTable, DepEntry, DepValue, KindTables, LedgerState, Manifest, Sections, TargetBlock,
};
use deppatcher::source::{DirectSource, Outcome};

fn no_source() -> DirectSource {
    DirectSource {
        version: None,
        registry: None,
        path: None,
        git: None,
        rev: None,
        tag: None,
        branch: None,
        workspace: None,
    }
}

fn version_src(v: &str) -> DirectSource {
    DirectSource { version: Some(v.to_string()), ..no_source() }
}

fn path_src(p: &str) -> DirectSource {
    DirectSource { path: Some(p.to_string()), ..no_source() }
}

fn empty_tables() -> KindTables {
    KindTables { dependencies: None, dev_dependencies: None, build_dependencies: None }
}

fn manifest_with_deps(entries: Vec<DepEntry>) -> Manifest {
    Manifest {
        has_package: true,
        root: Sections {
            tables: KindTables {
                dependencies: Some(entries),
                dev_dependencies: None,
                build_dependencies: None,
            },
            targets: vec![],
        },
        workspace: None,
        ledger: LedgerState::Absent,
    }
}

fn key_path(path: &[&str]) -> Vec<String> {
    path.iter().map(|s| s.to_string()).collect()
}

#[test]
fn version_string_declaration_round_trip() {
    // a declaration `foo = "1.0"` under [dependencies]
    let m = manifest_with_deps(vec![DepEntry {
        name: "foo".to_string(),
        value: DepValue::VersionStr("1.0".to_string()),
    }]);

    let records = collect_records(&m).unwrap();
    assert_eq!(records.len(), 1);
    assert_eq!(records[0].name, "foo");
    assert_eq!(records[0].package, "foo");
    assert_eq!(records[0].source, version_src("1.0"));
    assert_eq!(records[0].original_source, version_src("1.0"));

    // the decision replaces it with a local path
    let out1 = patch_manifest(&m, &vec![Outcome::Replace(path_src("/local/foo"))], false).unwrap();
    let m1 = out1.manifest;
    match &m1.root.tables.dependencies.as_ref().unwrap()[0].value {
        DepValue::TableForm(t) => {
            assert_eq!(t.package, None);
            assert_eq!(t.source, path_src("/local/foo"));
            assert_eq!(t.extra, 0);
        },
        _ => panic!("declaration should have become a table"),
    }
    // the ledger gained dependencies.foo = { version = "1.0" }
    match &m1.ledger {
        LedgerState::Present(entries) => {
            assert_eq!(entries.len(), 1);
            assert_eq!(entries[0].path, key_path(&["dependencies", "foo"]));
            assert_eq!(entries[0].original, version_src("1.0"));
        },
        _ => panic!("ledger should exist after the change"),
    }

    // a second run with the same decision is a no-op
    let records2 = collect_records(&m1).unwrap();
    assert_eq!(records2.len(), 1);
    assert_eq!(records2[0].source, path_src("/local/foo"));
    assert_eq!(records2[0].original_source, version_src("1.0"));
    let out2 = patch_manifest(&m1, &vec![Outcome::Replace(path_src("/local/foo"))], false)
        .unwrap();
    assert_eq!(out2.edits.len(), 0);

    // revert restores foo = "1.0" and drops the ledger entry
    let out3 = revert_manifest(&out2.manifest).unwrap();
    let m3 = out3.manifest;
    match &m3.root.tables.dependencies.as_ref().unwrap()[0].value {
        DepValue::VersionStr(v) => assert_eq!(v, "1.0"),
        _ => panic!("declaration should have collapsed back to a bare version"),
    }
    match &m3.ledger {
        LedgerState::Present(entries) => assert_eq!(entries.len(), 0),
        _ => panic!("a ledger that existed stays, empty"),
    }
}

#[test]
fn unchanged_decision_emits_no_edit() {
    let m = manifest_with_deps(vec![
        DepEntry {
            name: "a".to_string(),
            value: DepValue::TableForm(DeclTable {
                package: None,
                source: version_src("0.3"),
                extra: 0,
            }),
        },
        DepEntry { name: "b".to_string(), value: DepValue::VersionStr("2".to_string()) },
    ]);
    let out = patch_manifest(&m, &vec![Outcome::Unchanged, Outcome::Unchanged], false).unwrap();
    assert_eq!(out.edits.len(), 0);
    assert!(matches!(out.manifest.ledger, LedgerState::Absent));
    match &out.manifest.root.tables.dependencies.as_ref().unwrap()[0].value {
        DepValue::TableForm(t) => assert_eq!(t.source, version_src("0.3")),
        _ => panic!("table form kept"),
    }
    match &out.manifest.root.tables.dependencies.as_ref().unwrap()[1].value {
        DepValue::VersionStr(v) => assert_eq!(v, "2"),
        _ => panic!("string form kept"),
    }
}

#[test]
fn replacement_equal_to_current_is_a_no_op() {
    let m = manifest_with_deps(vec![DepEntry {
        name: "foo".to_string(),
        value: DepValue::VersionStr("1.0".to_string()),
    }]);
    let out = patch_manifest(&m, &vec![Outcome::Replace(version_src("1.0"))], false).unwrap();
    assert_eq!(out.edits.len(), 0);
    assert!(matches!(out.manifest.ledger, LedgerState::Absent));
}

#[test]
fn backup_is_keyed_by_package_identity() {
    // an aliased declaration: alias = { package = "real", version = "1" }
    let m = manifest_with_deps(vec![DepEntry {
        name: "alias".to_string(),
        value: DepValue::TableForm(DeclTable {
            package: Some("real".to_string()),
            source: version_src("1"),
            extra: 0,
        }),
    }]);
    let records = collect_records(&m).unwrap();
    assert_eq!(records[0].name, "alias");
    assert_eq!(records[0].package, "real");
    let out = patch_manifest(&m, &vec![Outcome::Replace(version_src("2"))], false).unwrap();
    match &out.manifest.ledger {
        LedgerState::Present(entries) => {
            assert_eq!(entries.len(), 1);
            assert_eq!(entries[0].path, key_path(&["dependencies", "real"]));
            assert_eq!(entries[0].original, version_src("1"));
        },
        _ => panic!("ledger should exist"),
    }
    // the declaration keeps its rename, so it cannot collapse
    match &out.manifest.root.tables.dependencies.as_ref().unwrap()[0].value {
        DepValue::TableForm(t) => {
            assert_eq!(t.package, Some("real".to_string()));
            assert_eq!(t.source, version_src("2"));
        },
        _ => panic!("table form kept"),
    }
}

#[test]
fn returning_to_the_original_drops_the_backup() {
    let m = manifest_with_deps(vec![DepEntry {
        name: "foo".to_string(),
        value: DepValue::VersionStr("1.0".to_string()),
    }]);
    let out1 = patch_manifest(&m, &vec![Outcome::Replace(version_src("2.0"))], false).unwrap();
    match &out1.manifest.ledger {
        LedgerState::Present(entries) => assert_eq!(entries.len(), 1),
        _ => panic!("ledger should exist"),
    }
    // replacing with the recorded original collapses the ledger entry
    let out2 = patch_manifest(
        &out1.manifest,
        &vec![Outcome::Replace(version_src("1.0"))],
        false,
    )
    .unwrap();
    match &out2.manifest.ledger {
        LedgerState::Present(entries) => assert_eq!(entries.len(), 0),
        _ => panic!("ledger stays, empty"),
    }
    match &out2.manifest.root.tables.dependencies.as_ref().unwrap()[0].value {
        DepValue::VersionStr(v) => assert_eq!(v, "1.0"),
        _ => panic!("collapsed back to the bare version"),
    }
    assert!(out2.edits.iter().any(|e| matches!(e, DocEdit::RemoveLedger { .. })));
}

#[test]
fn malformed_ledger_is_fatal_before_any_mutation() {
    let mut m = manifest_with_deps(vec![DepEntry {
        name: "foo".to_string(),
        value: DepValue::VersionStr("1.0".to_string()),
    }]);
    m.ledger = LedgerState::Malformed;
    assert_eq!(collect_records(&m).unwrap_err(), PatchError::MalformedLedger);
    let err = patch_manifest(&m, &vec![], false).unwrap_err();
    assert_eq!(err, PatchError::MalformedLedger);
    assert_eq!(revert_manifest(&m).unwrap_err(), PatchError::MalformedLedger);
}

#[test]
fn freeze_discards_ledger_and_revert_is_then_a_no_op() {
    let m = manifest_with_deps(vec![DepEntry {
        name: "foo".to_string(),
        value: DepValue::VersionStr("1.0".to_string()),
    }]);
    let out1 = patch_manifest(&m, &vec![Outcome::Replace(version_src("2.0"))], false).unwrap();
    let (frozen, edits) = freeze_manifest(out1.manifest);
    assert!(matches!(frozen.ledger, LedgerState::Absent));
    assert_eq!(edits.len(), 1);
    assert!(matches!(edits[0], DocEdit::ClearLedger));

    // freezing again changes nothing
    let (frozen2, edits2) = freeze_manifest(frozen);
    assert!(matches!(frozen2.ledger, LedgerState::Absent));
    assert_eq!(edits2.len(), 0);

    // revert now has nothing to restore
    let out2 = revert_manifest(&frozen2).unwrap();
    assert_eq!(out2.edits.len(), 0);
    match &out2.manifest.root.tables.dependencies.as_ref().unwrap()[0].value {
        DepValue::VersionStr(v) => assert_eq!(v, "2.0"),
        _ => panic!("the patched source stays after freeze"),
    }
}

#[test]
fn records_visit_tables_targets_and_workspace_in_order() {
    let dep = |name: &str, v: &str| DepEntry {
        name: name.to_string(),
        value: DepValue::VersionStr(v.to_string()),
    };
    let m = Manifest {
        has_package: false,
        root: Sections {
            tables: KindTables {
                dependencies: Some(vec![dep("a", "1")]),
                dev_dependencies: Some(vec![dep("b", "1")]),
                build_dependencies: Some(vec![dep("c", "1")]),
            },
            targets: vec![TargetBlock {
                cfg: "cfg(unix)".to_string(),
                tables: KindTables {
                    dependencies: Some(vec![dep("d", "1")]),
                    dev_dependencies: None,
                    build_dependencies: None,
                },
            }],
        },
        workspace: Some(Sections {
            tables: KindTables {
                dependencies: Some(vec![dep("e", "1")]),
                dev_dependencies: None,
                build_dependencies: None,
            },
            targets: vec![],
        }),
        ledger: LedgerState::Absent,
    };
    let records = collect_records(&m).unwrap();
    let names: Vec<&str> = records.iter().map(|r| r.name.as_str()).collect();
    assert_eq!(names, vec!["a", "b", "c", "d", "e"]);

    // changing the target and workspace declarations lands the backups
    // under their full key paths
    let outs = vec![
        Outcome::Unchanged,
        Outcome::Unchanged,
        Outcome::Unchanged,
        Outcome::Replace(version_src("9")),
        Outcome::Replace(version_src("9")),
    ];
    let out = patch_manifest(&m, &outs, false).unwrap();
    match &out.manifest.ledger {
        LedgerState::Present(entries) => {
            assert_eq!(entries.len(), 2);
            assert_eq!(
                entries[0].path,
                key_path(&["target", "cfg(unix)", "dependencies", "d"])
            );
            assert_eq!(entries[1].path, key_path(&["workspace", "dependencies", "e"]));
        },
        _ => panic!("ledger should exist"),
    }
}

#[test]
fn table_declarations_are_visited_before_bare_strings() {
    let m = manifest_with_deps(vec![
        DepEntry { name: "s".to_string(), value: DepValue::VersionStr("1".to_string()) },
        DepEntry {
            name: "t".to_string(),
            value: DepValue::TableForm(DeclTable {
                package: None,
                source: version_src("2"),
                extra: 0,
            }),
        },
    ]);
    let records = collect_records(&m).unwrap();
    let names: Vec<&str> = records.iter().map(|r| r.name.as_str()).collect();
    assert_eq!(names, vec!["t", "s"]);
}

#[test]
fn other_shapes_are_skipped_not_fatal() {
    let m = manifest_with_deps(vec![
        DepEntry { name: "odd".to_string(), value: DepValue::Other },
        DepEntry { name: "foo".to_string(), value: DepValue::VersionStr("1".to_string()) },
    ]);
    let records = collect_records(&m).unwrap();
    assert_eq!(records.len(), 1);
    assert_eq!(records[0].name, "foo");
}

#[test]
fn extra_keys_prevent_collapsing_to_a_bare_string() {
    // foo = { version = "1", features = [...] } : one unrelated key
    let m = manifest_with_deps(vec![DepEntry {
        name: "foo".to_string(),
        value: DepValue::TableForm(DeclTable {
            package: None,
            source: version_src("1"),
            extra: 1,
        }),
    }]);
    let out = patch_manifest(&m, &vec![Outcome::Replace(version_src("2"))], false).unwrap();
    match &out.manifest.root.tables.dependencies.as_ref().unwrap()[0].value {
        DepValue::TableForm(t) => {
            assert_eq!(t.source, version_src("2"));
            assert_eq!(t.extra, 1);
        },
        _ => panic!("a table with unrelated keys must stay a table"),
    }
}

#[test]
fn normalized_layout_reformats_untouched_tables() {
    let m = manifest_with_deps(vec![DepEntry {
        name: "foo".to_string(),
        value: DepValue::TableForm(DeclTable {
            package: None,
            source: version_src("1"),
            extra: 0,
        }),
    }]);
    let out = patch_manifest(&m, &vec![Outcome::Unchanged], true).unwrap();
    assert_eq!(out.edits.len(), 1);
    match &out.edits[0] {
        DocEdit::FormatDecl { path, collapse } => {
            assert_eq!(*path, key_path(&["dependencies", "foo"]));
            assert!(*collapse);
        },
        _ => panic!("only a formatting edit is emitted"),
    }
}

#[test]
fn edits_record_ledger_write_then_declaration_write() {
    let m = manifest_with_deps(vec![DepEntry {
        name: "foo".to_string(),
        value: DepValue::VersionStr("1.0".to_string()),
    }]);
    let out = patch_manifest(&m, &vec![Outcome::Replace(path_src("/p"))], false).unwrap();
    assert_eq!(out.edits.len(), 2);
    match &out.edits[0] {
        DocEdit::SetLedger { path, original } => {
            assert_eq!(*path, key_path(&["dependencies", "foo"]));
            assert_eq!(*original, version_src("1.0"));
        },
        _ => panic!("first the backup"),
    }
    match &out.edits[1] {
        DocEdit::SetDecl { path, value, inline } => {
            assert_eq!(*path, key_path(&["dependencies", "foo"]));
            assert!(!*inline);
            match value {
                DepValue::TableForm(t) => assert_eq!(t.source, path_src("/p")),
                _ => panic!("the new declaration is a table"),
            }
        },
        _ => panic!("then the declaration"),
    }
}

#[test]
fn revert_after_several_runs_restores_the_first_source() {
    let m = manifest_with_deps(vec![DepEntry {
        name: "foo".to_string(),
        value: DepValue::VersionStr("1.0".to_string()),
    }]);
    let out1 = patch_manifest(&m, &vec![Outcome::Replace(version_src("2.0"))], false).unwrap();
    let out2 = patch_manifest(
        &out1.manifest,
        &vec![Outcome::Replace(path_src("/elsewhere"))],
        false,
    )
    .unwrap();
    // the backup still records the source before the first run
    match &out2.manifest.ledger {
        LedgerState::Present(entries) => {
            assert_eq!(entries.len(), 1);
            assert_eq!(entries[0].original, version_src("1.0"));
        },
        _ => panic!("ledger should exist"),
    }
    let out3 = revert_manifest(&out2.manifest).unwrap();
    match &out3.manifest.root.tables.dependencies.as_ref().unwrap()[0].value {
        DepValue::VersionStr(v) => assert_eq!(v, "1.0"),
        _ => panic!("the first source comes back, field for field"),
    }
    match &out3.manifest.ledger {
        LedgerState::Present(entries) => assert_eq!(entries.len(), 0),
        _ => panic!("ledger stays, empty"),
    }
}

#[test]
fn empty_tables_manifest_has_no_records() {
    let m = Manifest {
        has_package: true,
        root: Sections { tables: empty_tables(), targets: vec![] },
        workspace: None,
        ledger: LedgerState::Absent,
    };
    let records = collect_records(&m).unwrap();
    assert_eq!(records.len(), 0);
    let out = patch_manifest(&m, &vec![], false).unwrap();
    assert_eq!(out.edits.len(), 0);
}
