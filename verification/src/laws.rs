//! The global guarantees of the patch engine, stated and proved once and
//! for all over the engine's own specification functions.

use vstd::prelude::*;

use crate::engine::{
    LedgerImage, PassV, StepV, apply_deps, apply_kind_tables, apply_manifest_v, apply_one_kind,
    apply_sections, lemma_apply_deps_used, lemma_records_deps_led,
    apply_sel, apply_targets, backup_path, collapsible_v, in_pass, manifest_records, pkg_of_v,
    record_v, records_deps, records_kind_tables, records_sections, records_sel, records_targets,
    revert_outcomes, step_v, initial_ledger_map, final_ledger, lemma_apply_sel_shape,
    lemma_apply_sel_used,
};
use crate::manifest::{
    DeclTableV, DepEntryV, DepValueV, KindTablesV, LedgerV, ManifestV, SectionsV, TargetBlockV,
    table_form_v,
};
use crate::source::{InputV, OutcomeV, SourceV, version_only_v};

verus! {

/// An outcome that cannot change a declaration whose record is `rec`:
/// either no change was asked, or the replacement equals the live source.
pub open spec fn noop_outcome(o: OutcomeV, rec: InputV) -> bool {
    o is Unchanged || o == OutcomeV::Replace(rec.source)
}

/// A pass fed only no-op outcomes, without the normalized-layout option,
/// changes nothing: same entries, same ledger, no edits.
proof fn lemma_noop_sel(
    entries: Seq<DepEntryV>,
    prefix: Seq<Seq<char>>,
    led: LedgerImage,
    outs: Seq<OutcomeV>,
    want_table: bool,
)
    requires
        outs.len() >= records_sel(entries, prefix, led, want_table).len(),
        forall|k: int|
            0 <= k < records_sel(entries, prefix, led, want_table).len() ==> noop_outcome(
                outs[k],
                #[trigger] records_sel(entries, prefix, led, want_table)[k],
            ),
    ensures
        apply_sel(entries, prefix, led, outs, want_table, false) == (PassV {
            entries,
            led,
            edits: Seq::<crate::engine::EditV>::empty(),
            used: records_sel(entries, prefix, led, want_table).len() as nat,
        }),
    decreases entries.len(),
{
    let rs = records_sel(entries, prefix, led, want_table);
    if entries.len() == 0 {
        assert(apply_sel(entries, prefix, led, outs, want_table, false) =~= PassV {
            entries,
            led,
            edits: Seq::<crate::engine::EditV>::empty(),
            used: rs.len() as nat,
        });
    } else {
        let e = entries[0];
        if in_pass(e.value, want_table) {
            let rec0 = record_v(prefix.push(e.name), e.name, e.value, led);
            assert(rs[0] == rec0);
            assert(noop_outcome(outs[0], rec0));
            let st = step_v(prefix.push(e.name), e.name, e.value, led, outs[0], false);
            assert(st == (StepV {
                value: e.value,
                led,
                edits: Seq::<crate::engine::EditV>::empty(),
            }));
            assert forall|k: int|
                0 <= k < records_sel(entries.drop_first(), prefix, led, want_table).len()
                    implies noop_outcome(
                outs.drop_first()[k],
                #[trigger] records_sel(entries.drop_first(), prefix, led, want_table)[k],
            ) by {
                assert(rs[k + 1] == records_sel(entries.drop_first(), prefix, led, want_table)[k]);
                assert(outs.drop_first()[k] == outs[k + 1]);
            }
            lemma_noop_sel(entries.drop_first(), prefix, led, outs.drop_first(), want_table);
            assert(apply_sel(entries, prefix, led, outs, want_table, false) =~= PassV {
                entries,
                led,
                edits: Seq::<crate::engine::EditV>::empty(),
                used: rs.len() as nat,
            });
        } else {
            assert forall|k: int|
                0 <= k < records_sel(entries.drop_first(), prefix, led, want_table).len()
                    implies noop_outcome(
                outs[k],
                #[trigger] records_sel(entries.drop_first(), prefix, led, want_table)[k],
            ) by {
                assert(rs[k] == records_sel(entries.drop_first(), prefix, led, want_table)[k]);
            }
            lemma_noop_sel(entries.drop_first(), prefix, led, outs, want_table);
            assert(apply_sel(entries, prefix, led, outs, want_table, false) =~= PassV {
                entries,
                led,
                edits: Seq::<crate::engine::EditV>::empty(),
                used: rs.len() as nat,
            });
        }
    }
}

/// One dependency table fed only no-op outcomes changes nothing.
proof fn lemma_noop_deps(
    entries: Seq<DepEntryV>,
    prefix: Seq<Seq<char>>,
    led: LedgerImage,
    outs: Seq<OutcomeV>,
)
    requires
        outs.len() >= records_deps(entries, prefix, led).len(),
        forall|k: int|
            0 <= k < records_deps(entries, prefix, led).len() ==> noop_outcome(
                outs[k],
                #[trigger] records_deps(entries, prefix, led)[k],
            ),
    ensures
        apply_deps(entries, prefix, led, outs, false) == (PassV {
            entries,
            led,
            edits: Seq::<crate::engine::EditV>::empty(),
            used: records_deps(entries, prefix, led).len() as nat,
        }),
{
    let ra = records_sel(entries, prefix, led, true);
    let rb = records_sel(entries, prefix, led, false);
    assert forall|k: int| 0 <= k < ra.len() implies noop_outcome(outs[k], #[trigger] ra[k]) by {
        assert(records_deps(entries, prefix, led)[k] == ra[k]);
    }
    lemma_noop_sel(entries, prefix, led, outs, true);
    let p1 = apply_sel(entries, prefix, led, outs, true, false);
    assert forall|k: int|
        0 <= k < rb.len() implies noop_outcome(outs.skip(ra.len() as int)[k], #[trigger] rb[k]) by {
        assert(records_deps(entries, prefix, led)[ra.len() + k] == rb[k]);
        assert(outs.skip(ra.len() as int)[k] == outs[ra.len() + k]);
    }
    lemma_noop_sel(entries, prefix, led, outs.skip(ra.len() as int), false);
    assert(apply_deps(entries, prefix, led, outs, false).entries =~= entries);
    assert(apply_deps(entries, prefix, led, outs, false).edits =~= Seq::<
        crate::engine::EditV,
    >::empty());
    assert(apply_deps(entries, prefix, led, outs, false) =~= PassV {
        entries,
        led,
        edits: Seq::<crate::engine::EditV>::empty(),
        used: records_deps(entries, prefix, led).len() as nat,
    });
}

/// A section's three tables fed only no-op outcomes change nothing.
proof fn lemma_noop_kind(
    kt: KindTablesV,
    prefix: Seq<Seq<char>>,
    led: LedgerImage,
    outs: Seq<OutcomeV>,
)
    requires
        outs.len() >= records_kind_tables(kt, prefix, led).len(),
        forall|k: int|
            0 <= k < records_kind_tables(kt, prefix, led).len() ==> noop_outcome(
                outs[k],
                #[trigger] records_kind_tables(kt, prefix, led)[k],
            ),
    ensures
        apply_kind_tables(kt, prefix, led, outs, false) == (
            kt,
            led,
            Seq::<crate::engine::EditV>::empty(),
            records_kind_tables(kt, prefix, led).len() as nat,
        ),
{
    let rs = records_kind_tables(kt, prefix, led);
    let ra = crate::engine::records_one_kind(kt.dependencies, prefix, "dependencies"@, led);
    let rb = crate::engine::records_one_kind(kt.dev_dependencies, prefix, "dev-dependencies"@, led);
    let rc = crate::engine::records_one_kind(
        kt.build_dependencies,
        prefix,
        "build-dependencies"@,
        led,
    );
    match kt.dependencies {
        Some(es) => {
            assert forall|k: int|
                0 <= k < records_deps(es, prefix.push("dependencies"@), led).len()
                    implies noop_outcome(
                outs[k],
                #[trigger] records_deps(es, prefix.push("dependencies"@), led)[k],
            ) by {
                assert(rs[k] == ra[k]);
            }
            lemma_noop_deps(es, prefix.push("dependencies"@), led, outs);
        },
        None => {},
    }
    match kt.dev_dependencies {
        Some(es) => {
            assert forall|k: int|
                0 <= k < records_deps(es, prefix.push("dev-dependencies"@), led).len()
                    implies noop_outcome(
                outs.skip(ra.len() as int)[k],
                #[trigger] records_deps(es, prefix.push("dev-dependencies"@), led)[k],
            ) by {
                assert(rs[ra.len() + k] == rb[k]);
                assert(outs.skip(ra.len() as int)[k] == outs[ra.len() + k]);
            }
            lemma_noop_deps(es, prefix.push("dev-dependencies"@), led, outs.skip(ra.len() as int));
        },
        None => {},
    }
    match kt.build_dependencies {
        Some(es) => {
            assert forall|k: int|
                0 <= k < records_deps(es, prefix.push("build-dependencies"@), led).len()
                    implies noop_outcome(
                outs.skip(ra.len() + rb.len() as int)[k],
                #[trigger] records_deps(es, prefix.push("build-dependencies"@), led)[k],
            ) by {
                assert(rs[ra.len() + rb.len() + k] == rc[k]);
                assert(outs.skip(ra.len() + rb.len() as int)[k] == outs[ra.len() + rb.len() + k]);
            }
            lemma_noop_deps(
                es,
                prefix.push("build-dependencies"@),
                led,
                outs.skip(ra.len() + rb.len() as int),
            );
        },
        None => {},
    }
    assert(apply_kind_tables(kt, prefix, led, outs, false).0 =~= kt);
    assert(apply_kind_tables(kt, prefix, led, outs, false).2 =~= Seq::<
        crate::engine::EditV,
    >::empty());
}

/// The targets fed only no-op outcomes change nothing.
proof fn lemma_noop_targets(
    ts: Seq<TargetBlockV>,
    prefix: Seq<Seq<char>>,
    led: LedgerImage,
    outs: Seq<OutcomeV>,
)
    requires
        outs.len() >= records_targets(ts, prefix, led).len(),
        forall|k: int|
            0 <= k < records_targets(ts, prefix, led).len() ==> noop_outcome(
                outs[k],
                #[trigger] records_targets(ts, prefix, led)[k],
            ),
    ensures
        apply_targets(ts, prefix, led, outs, false) == (
            ts,
            led,
            Seq::<crate::engine::EditV>::empty(),
            records_targets(ts, prefix, led).len() as nat,
        ),
    decreases ts.len(),
{
    let rs = records_targets(ts, prefix, led);
    if ts.len() == 0 {
        assert(apply_targets(ts, prefix, led, outs, false) =~= (
            ts,
            led,
            Seq::<crate::engine::EditV>::empty(),
            rs.len() as nat,
        ));
    } else {
        let p2 = prefix.push("target"@).push(ts[0].cfg);
        let r0 = records_kind_tables(ts[0].tables, p2, led);
        assert forall|k: int| 0 <= k < r0.len() implies noop_outcome(outs[k], #[trigger] r0[k]) by {
            assert(rs[k] == r0[k]);
        }
        lemma_noop_kind(ts[0].tables, p2, led, outs);
        let rest = records_targets(ts.drop_first(), prefix, led);
        assert forall|k: int|
            0 <= k < rest.len() implies noop_outcome(
            outs.skip(r0.len() as int)[k],
            #[trigger] rest[k],
        ) by {
            assert(rs[r0.len() + k] == rest[k]);
            assert(outs.skip(r0.len() as int)[k] == outs[r0.len() + k]);
        }
        lemma_noop_targets(ts.drop_first(), prefix, led, outs.skip(r0.len() as int));
        assert(apply_targets(ts, prefix, led, outs, false).0 =~= ts);
        assert(apply_targets(ts, prefix, led, outs, false).2 =~= Seq::<
            crate::engine::EditV,
        >::empty());
        assert(apply_targets(ts, prefix, led, outs, false) =~= (
            ts,
            led,
            Seq::<crate::engine::EditV>::empty(),
            rs.len() as nat,
        ));
    }
}

/// One whole section fed only no-op outcomes changes nothing.
proof fn lemma_noop_sections(
    s: SectionsV,
    prefix: Seq<Seq<char>>,
    led: LedgerImage,
    outs: Seq<OutcomeV>,
)
    requires
        outs.len() >= records_sections(s, prefix, led).len(),
        forall|k: int|
            0 <= k < records_sections(s, prefix, led).len() ==> noop_outcome(
                outs[k],
                #[trigger] records_sections(s, prefix, led)[k],
            ),
    ensures
        apply_sections(s, prefix, led, outs, false) == (
            s,
            led,
            Seq::<crate::engine::EditV>::empty(),
            records_sections(s, prefix, led).len() as nat,
        ),
{
    let rs = records_sections(s, prefix, led);
    let ra = records_kind_tables(s.tables, prefix, led);
    let rb = records_targets(s.targets, prefix, led);
    assert forall|k: int| 0 <= k < ra.len() implies noop_outcome(outs[k], #[trigger] ra[k]) by {
        assert(rs[k] == ra[k]);
    }
    lemma_noop_kind(s.tables, prefix, led, outs);
    assert forall|k: int|
        0 <= k < rb.len() implies noop_outcome(outs.skip(ra.len() as int)[k], #[trigger] rb[k]) by {
        assert(rs[ra.len() + k] == rb[k]);
        assert(outs.skip(ra.len() as int)[k] == outs[ra.len() + k]);
    }
    lemma_noop_targets(s.targets, prefix, led, outs.skip(ra.len() as int));
    assert(apply_sections(s, prefix, led, outs, false).0 =~= s);
    assert(apply_sections(s, prefix, led, outs, false).2 =~= Seq::<
        crate::engine::EditV,
    >::empty());
}

/// A whole manifest fed only no-op outcomes is returned unchanged, with
/// no edits: the core of minimality.
proof fn lemma_noop_manifest(m: ManifestV, outs: Seq<OutcomeV>)
    requires
        !(m.ledger is Malformed),
        outs.len() >= manifest_records(m).len(),
        forall|k: int|
            0 <= k < manifest_records(m).len() ==> noop_outcome(
                outs[k],
                #[trigger] manifest_records(m)[k],
            ),
    ensures
        apply_manifest_v(m, outs, false).0 == m,
        apply_manifest_v(m, outs, false).1 == Seq::<crate::engine::EditV>::empty(),
{
    let led0 = initial_ledger_map(m.ledger);
    let rs = manifest_records(m);
    let ra = records_sections(m.root, seq![], led0);
    assert forall|k: int| 0 <= k < ra.len() implies noop_outcome(outs[k], #[trigger] ra[k]) by {
        assert(rs[k] == ra[k]);
    }
    lemma_noop_sections(m.root, seq![], led0, outs);
    match m.workspace {
        Some(w) => {
            let rb = records_sections(w, seq!["workspace"@], led0);
            assert forall|k: int|
                0 <= k < rb.len() implies noop_outcome(
                outs.skip(ra.len() as int)[k],
                #[trigger] rb[k],
            ) by {
                assert(rs[ra.len() + k] == rb[k]);
                assert(outs.skip(ra.len() as int)[k] == outs[ra.len() + k]);
            }
            lemma_noop_sections(w, seq!["workspace"@], led0, outs.skip(ra.len() as int));
        },
        None => {},
    }
    assert(final_ledger(m.ledger, led0) == m.ledger);
    assert(apply_manifest_v(m, outs, false).0 =~~= m);
    assert(apply_manifest_v(m, outs, false).1 =~= Seq::<crate::engine::EditV>::empty());
}

/// Minimality: a run whose decision leaves every declaration unchanged
/// returns the manifest exactly as it was and emits no document edit, so
/// the written document stays byte-identical — in particular, no ledger
/// is created.
pub proof fn law_minimality(m: ManifestV, outs: Seq<OutcomeV>)
    requires
        !(m.ledger is Malformed),
        forall|k: int| 0 <= k < outs.len() ==> #[trigger] outs[k] is Unchanged,
        outs.len() == manifest_records(m).len(),
    ensures
        apply_manifest_v(m, outs, false).0 == m,
        apply_manifest_v(m, outs, false).1 == Seq::<crate::engine::EditV>::empty(),
{
    lemma_noop_manifest(m, outs);
}

/// With no ledger, every record's original source is its live source.
proof fn lemma_selfsame_records_sel(
    entries: Seq<DepEntryV>,
    prefix: Seq<Seq<char>>,
    led: LedgerImage,
    want_table: bool,
)
    requires
        led == Map::<Seq<Seq<char>>, SourceV>::empty(),
    ensures
        forall|k: int|
            0 <= k < records_sel(entries, prefix, led, want_table).len()
                ==> (#[trigger] records_sel(entries, prefix, led, want_table)[k]).original_source
                == records_sel(entries, prefix, led, want_table)[k].source,
    decreases entries.len(),
{
    if entries.len() > 0 {
        lemma_selfsame_records_sel(entries.drop_first(), prefix, led, want_table);
        let rs = records_sel(entries, prefix, led, want_table);
        let rest = records_sel(entries.drop_first(), prefix, led, want_table);
        assert forall|k: int|
            0 <= k < rs.len() implies (#[trigger] rs[k]).original_source == rs[k].source by {
            if in_pass(entries[0].value, want_table) {
                if k > 0 {
                    assert(rs[k] == rest[k - 1]);
                }
            } else {
                assert(rs[k] == rest[k]);
            }
        }
    }
}

/// With no ledger, the same holds of a whole table's records.
proof fn lemma_selfsame_records_deps(
    entries: Seq<DepEntryV>,
    prefix: Seq<Seq<char>>,
    led: LedgerImage,
)
    requires
        led == Map::<Seq<Seq<char>>, SourceV>::empty(),
    ensures
        forall|k: int|
            0 <= k < records_deps(entries, prefix, led).len()
                ==> (#[trigger] records_deps(entries, prefix, led)[k]).original_source
                == records_deps(entries, prefix, led)[k].source,
{
    lemma_selfsame_records_sel(entries, prefix, led, true);
    lemma_selfsame_records_sel(entries, prefix, led, false);
    let ra = records_sel(entries, prefix, led, true);
    let rb = records_sel(entries, prefix, led, false);
    assert forall|k: int|
        0 <= k < records_deps(entries, prefix, led).len() implies (#[trigger] records_deps(
        entries,
        prefix,
        led,
    )[k]).original_source == records_deps(entries, prefix, led)[k].source by {
        if k < ra.len() {
            assert(records_deps(entries, prefix, led)[k] == ra[k]);
        } else {
            assert(records_deps(entries, prefix, led)[k] == rb[k - ra.len()]);
        }
    }
}

/// With no ledger, the same holds of a section's three tables.
proof fn lemma_selfsame_records_kind(kt: KindTablesV, prefix: Seq<Seq<char>>, led: LedgerImage)
    requires
        led == Map::<Seq<Seq<char>>, SourceV>::empty(),
    ensures
        forall|k: int|
            0 <= k < records_kind_tables(kt, prefix, led).len()
                ==> (#[trigger] records_kind_tables(kt, prefix, led)[k]).original_source
                == records_kind_tables(kt, prefix, led)[k].source,
{
    let ra = crate::engine::records_one_kind(kt.dependencies, prefix, "dependencies"@, led);
    let rb = crate::engine::records_one_kind(kt.dev_dependencies, prefix, "dev-dependencies"@, led);
    let rc = crate::engine::records_one_kind(
        kt.build_dependencies,
        prefix,
        "build-dependencies"@,
        led,
    );
    match kt.dependencies {
        Some(es) => lemma_selfsame_records_deps(es, prefix.push("dependencies"@), led),
        None => {},
    }
    match kt.dev_dependencies {
        Some(es) => lemma_selfsame_records_deps(es, prefix.push("dev-dependencies"@), led),
        None => {},
    }
    match kt.build_dependencies {
        Some(es) => lemma_selfsame_records_deps(es, prefix.push("build-dependencies"@), led),
        None => {},
    }
    assert forall|k: int|
        0 <= k < records_kind_tables(kt, prefix, led).len() implies (
    #[trigger] records_kind_tables(kt, prefix, led)[k]).original_source == records_kind_tables(
        kt,
        prefix,
        led,
    )[k].source by {
        if k < ra.len() {
            assert(records_kind_tables(kt, prefix, led)[k] == ra[k]);
        } else if k < ra.len() + rb.len() {
            assert(records_kind_tables(kt, prefix, led)[k] == rb[k - ra.len()]);
        } else {
            assert(records_kind_tables(kt, prefix, led)[k] == rc[k - ra.len() - rb.len()]);
        }
    }
}

/// With no ledger, the same holds of the targets.
proof fn lemma_selfsame_records_targets(
    ts: Seq<TargetBlockV>,
    prefix: Seq<Seq<char>>,
    led: LedgerImage,
)
    requires
        led == Map::<Seq<Seq<char>>, SourceV>::empty(),
    ensures
        forall|k: int|
            0 <= k < records_targets(ts, prefix, led).len()
                ==> (#[trigger] records_targets(ts, prefix, led)[k]).original_source
                == records_targets(ts, prefix, led)[k].source,
    decreases ts.len(),
{
    if ts.len() > 0 {
        let p2 = prefix.push("target"@).push(ts[0].cfg);
        lemma_selfsame_records_kind(ts[0].tables, p2, led);
        lemma_selfsame_records_targets(ts.drop_first(), prefix, led);
        let ra = records_kind_tables(ts[0].tables, p2, led);
        let rb = records_targets(ts.drop_first(), prefix, led);
        assert forall|k: int|
            0 <= k < records_targets(ts, prefix, led).len() implies (#[trigger] records_targets(
            ts,
            prefix,
            led,
        )[k]).original_source == records_targets(ts, prefix, led)[k].source by {
            if k < ra.len() {
                assert(records_targets(ts, prefix, led)[k] == ra[k]);
            } else {
                assert(records_targets(ts, prefix, led)[k] == rb[k - ra.len()]);
            }
        }
    }
}

/// With no ledger, the same holds of a whole section.
proof fn lemma_selfsame_records_sections(s: SectionsV, prefix: Seq<Seq<char>>, led: LedgerImage)
    requires
        led == Map::<Seq<Seq<char>>, SourceV>::empty(),
    ensures
        forall|k: int|
            0 <= k < records_sections(s, prefix, led).len()
                ==> (#[trigger] records_sections(s, prefix, led)[k]).original_source
                == records_sections(s, prefix, led)[k].source,
{
    lemma_selfsame_records_kind(s.tables, prefix, led);
    lemma_selfsame_records_targets(s.targets, prefix, led);
    let ra = records_kind_tables(s.tables, prefix, led);
    let rb = records_targets(s.targets, prefix, led);
    assert forall|k: int|
        0 <= k < records_sections(s, prefix, led).len() implies (#[trigger] records_sections(
        s,
        prefix,
        led,
    )[k]).original_source == records_sections(s, prefix, led)[k].source by {
        if k < ra.len() {
            assert(records_sections(s, prefix, led)[k] == ra[k]);
        } else {
            assert(records_sections(s, prefix, led)[k] == rb[k - ra.len()]);
        }
    }
}

/// Freeze, then revert: once the ledger is gone, every record reports its
/// live source as its original, so a revert run changes nothing and
/// emits no edit.
pub proof fn law_revert_after_freeze(m: ManifestV)
    requires
        m.ledger is Absent,
    ensures
        apply_manifest_v(m, revert_outcomes(manifest_records(m)), false).0 == m,
        apply_manifest_v(m, revert_outcomes(manifest_records(m)), false).1 == Seq::<
            crate::engine::EditV,
        >::empty(),
{
    let led0 = initial_ledger_map(m.ledger);
    assert(led0 == Map::<Seq<Seq<char>>, SourceV>::empty());
    let rs = manifest_records(m);
    let ra = records_sections(m.root, seq![], led0);
    lemma_selfsame_records_sections(m.root, seq![], led0);
    match m.workspace {
        Some(w) => lemma_selfsame_records_sections(w, seq!["workspace"@], led0),
        None => {},
    }
    let outs = revert_outcomes(rs);
    assert forall|k: int| 0 <= k < rs.len() implies noop_outcome(outs[k], #[trigger] rs[k]) by {
        assert(outs[k] == OutcomeV::Replace(rs[k].original_source));
        if k < ra.len() {
            assert(rs[k] == ra[k]);
        } else {
            match m.workspace {
                Some(w) => {
                    let rb = records_sections(w, seq!["workspace"@], led0);
                    assert(rs[k] == rb[k - ra.len()]);
                },
                None => {},
            }
        }
        assert(rs[k].original_source == rs[k].source);
    }
    lemma_noop_manifest(m, outs);
}

/// Backup correctness, at one declaration step whose replacement truly
/// differs from the live source: without a backup, one is created from
/// the pre-change source, at the key path whose final segment is the
/// package identity; a backup equal to the replacement is removed, since
/// the declaration has come back to its original; any other backup is
/// kept as it is.
pub proof fn law_backup_correctness(
    path: Seq<Seq<char>>,
    name: Seq<char>,
    v: DepValueV,
    led: LedgerImage,
    s: SourceV,
    fi: bool,
)
    requires
        !(v is Other),
        path.len() > 0,
        s != table_form_v(v).source,
    ensures
        ({
            let st = step_v(path, name, v, led, OutcomeV::Replace(s), fi);
            let bpath = backup_path(path, pkg_of_v(name, table_form_v(v)));
            &&& !led.dom().contains(path) ==> st.led == led.insert(
                bpath,
                table_form_v(v).source,
            )
            &&& led.dom().contains(path) && led[path] == s ==> st.led == led.remove(path)
            &&& led.dom().contains(path) && led[path] != s ==> st.led == led
        }),
{
}

/// How a declaration step relates a declaration to the source it first
/// had: a backup exists exactly while the live source differs from that
/// first source, and then records it.
pub open spec fn restorable_decl(
    v: DepValueV,
    led: LedgerImage,
    path: Seq<Seq<char>>,
    src0: SourceV,
) -> bool {
    if led.dom().contains(path) {
        led[path] == src0 && table_form_v(v).source != src0
    } else {
        table_form_v(v).source == src0
    }
}

/// A declaration not aliased by an explicit `package` rename.
pub open spec fn unaliased_decl(name: Seq<char>, v: DepValueV) -> bool {
    pkg_of_v(name, table_form_v(v)) == name
}

/// Round trip, first half: whatever outcome a run applies to a
/// declaration, the relation between the declaration, its backup and the
/// source it first had is preserved.
pub proof fn law_step_preserves_restorable(
    path: Seq<Seq<char>>,
    name: Seq<char>,
    v: DepValueV,
    led: LedgerImage,
    o: OutcomeV,
    fi: bool,
    src0: SourceV,
)
    requires
        !(v is Other),
        path.len() > 0,
        path.last() == name,
        unaliased_decl(name, v),
        restorable_decl(v, led, path, src0),
    ensures
        ({
            let st = step_v(path, name, v, led, o, fi);
            restorable_decl(st.value, st.led, path, src0)
        }),
{
    let t = table_form_v(v);
    let src = t.source;
    let st = step_v(path, name, v, led, o, fi);
    assert(backup_path(path, pkg_of_v(name, t)) =~= path);
    match o {
        OutcomeV::Unchanged => {},
        OutcomeV::Replace(s) => {
            if s == src {
            } else {
                lemma_step_source(path, name, v, led, s, fi);
            }
        },
    }
}

/// After a real replacement, the stepped declaration's source is exactly
/// the replacement, whatever form it took.
proof fn lemma_step_source(
    path: Seq<Seq<char>>,
    name: Seq<char>,
    v: DepValueV,
    led: LedgerImage,
    s: SourceV,
    fi: bool,
)
    requires
        !(v is Other),
        path.len() > 0,
        s != table_form_v(v).source,
    ensures
        table_form_v(
            step_v(path, name, v, led, OutcomeV::Replace(s), fi).value,
        ).source == s,
        !(step_v(path, name, v, led, OutcomeV::Replace(s), fi).value is Other),
        table_form_v(step_v(path, name, v, led, OutcomeV::Replace(s), fi).value).package
            == table_form_v(v).package,
        table_form_v(step_v(path, name, v, led, OutcomeV::Replace(s), fi).value).extra
            == table_form_v(v).extra,
{
    let t = table_form_v(v);
    let newt = DeclTableV { package: t.package, source: s, extra: t.extra };
    if collapsible_v(newt) {
        assert(version_only_v(s.version->0) == s);
    }
}

/// Round trip, second half: a revert step — the outcome is the record's
/// original source — brings the declaration's source back to the source
/// it first had and leaves no backup behind.
pub proof fn law_revert_step_restores(
    path: Seq<Seq<char>>,
    name: Seq<char>,
    v: DepValueV,
    led: LedgerImage,
    src0: SourceV,
)
    requires
        !(v is Other),
        path.len() > 0,
        path.last() == name,
        unaliased_decl(name, v),
        restorable_decl(v, led, path, src0),
    ensures
        ({
            let r = record_v(path, name, v, led);
            let st = step_v(path, name, v, led, OutcomeV::Replace(r.original_source), false);
            &&& table_form_v(st.value).source == src0
            &&& !st.led.dom().contains(path)
        }),
{
    let r = record_v(path, name, v, led);
    let t = table_form_v(v);
    assert(backup_path(path, pkg_of_v(name, t)) =~= path);
    if led.dom().contains(path) {
        lemma_step_source(path, name, v, led, r.original_source, false);
    }
}

/// The hypothesis under which patching is idempotent: the decision reads
/// only the declaration's name, package identity and original source —
/// never the live source it is about to change.
pub open spec fn decision_stable(d: spec_fn(InputV) -> OutcomeV) -> bool {
    forall|r1: InputV, r2: InputV|
        r1.name == r2.name && r1.package == r2.package && r1.original_source == r2.original_source
            ==> #[trigger] d(r1) == #[trigger] d(r2)
}

/// Idempotence, at one declaration: running such a decision on a
/// declaration it has already processed changes nothing more — the
/// second step keeps the declaration, the ledger, and emits no edit.
pub proof fn law_patch_twice_declaration(
    path: Seq<Seq<char>>,
    name: Seq<char>,
    v: DepValueV,
    led: LedgerImage,
    d: spec_fn(InputV) -> OutcomeV,
)
    requires
        !(v is Other),
        path.len() > 0,
        path.last() == name,
        unaliased_decl(name, v),
        decision_stable(d),
    ensures
        ({
            let r1 = record_v(path, name, v, led);
            let st1 = step_v(path, name, v, led, d(r1), false);
            let r2 = record_v(path, name, st1.value, st1.led);
            let st2 = step_v(path, name, st1.value, st1.led, d(r2), false);
            &&& st2 == (StepV {
                value: st1.value,
                led: st1.led,
                edits: Seq::<crate::engine::EditV>::empty(),
            })
            &&& noop_outcome(d(r2), r2)
        }),
{
    let t = table_form_v(v);
    let src = t.source;
    let r1 = record_v(path, name, v, led);
    let o1 = d(r1);
    let st1 = step_v(path, name, v, led, o1, false);
    let r2 = record_v(path, name, st1.value, st1.led);
    let st2 = step_v(path, name, st1.value, st1.led, d(r2), false);
    assert(backup_path(path, pkg_of_v(name, t)) =~= path);
    match o1 {
        OutcomeV::Unchanged => {
            assert(r2 == r1);
            assert(d(r2) == d(r1));
        },
        OutcomeV::Replace(s) => {
            if s == src {
                assert(r2 == r1);
                assert(d(r2) == d(r1));
            } else {
                lemma_step_source(path, name, v, led, s, false);
                assert(table_form_v(st1.value).source == s);
                assert(unaliased_decl(name, st1.value));
                let had = led.dom().contains(path);
                let orig = if had {
                    led[path]
                } else {
                    src
                };
                assert(r2.name == r1.name);
                assert(r2.package == r1.package);
                assert(r2.source == s);
                if !had {
                    assert(st1.led == led.insert(path, src));
                    assert(r2.original_source == src);
                    assert(r1.original_source == src);
                } else if orig == s {
                    assert(st1.led == led.remove(path));
                    assert(!st1.led.dom().contains(path));
                    assert(r2.original_source == s);
                    assert(r1.original_source == s);
                } else {
                    assert(st1.led == led);
                    assert(r2.original_source == orig);
                    assert(r1.original_source == orig);
                }
                assert(d(r2) == d(r1));
                assert(d(r2) == OutcomeV::Replace(s));
            }
        },
    }
}

/// Two ledger images agree at one path.
pub open spec fn led_agree(l1: LedgerImage, l2: LedgerImage, p: Seq<Seq<char>>) -> bool {
    &&& l1.dom().contains(p) == l2.dom().contains(p)
    &&& (l1.dom().contains(p) ==> l1[p] == l2[p])
}

/// Whether `p` is the key path of one of the table's declarations.
pub open spec fn is_decl_path(
    entries: Seq<DepEntryV>,
    prefix: Seq<Seq<char>>,
    p: Seq<Seq<char>>,
) -> bool {
    exists|i: int| 0 <= i < entries.len() && p == prefix.push((#[trigger] entries[i]).name)
}

/// No two declarations of one table share a key.
pub open spec fn unique_names(entries: Seq<DepEntryV>) -> bool {
    forall|i: int, j: int|
        0 <= i < j < entries.len() ==> (#[trigger] entries[i]).name != (#[trigger] entries[j]).name
}

/// How a patched table relates to the table a ledger-free run started
/// from: same keys in the same order, same shapes apart from the source
/// fields, same renames and same unrelated keys.
pub open spec fn tracks_base(cur: Seq<DepEntryV>, base: Seq<DepEntryV>) -> bool {
    &&& cur.len() == base.len()
    &&& forall|i: int| 0 <= i < cur.len() ==> (#[trigger] cur[i]).name == base[i].name
    &&& forall|i: int|
        0 <= i < cur.len() ==> ((#[trigger] cur[i]).value is Other) == (base[i].value is Other)
    &&& forall|i: int|
        0 <= i < cur.len() ==> table_form_v((#[trigger] cur[i]).value).package == table_form_v(
            base[i].value,
        ).package
    &&& forall|i: int|
        0 <= i < cur.len() ==> table_form_v((#[trigger] cur[i]).value).extra == table_form_v(
            base[i].value,
        ).extra
}

/// Every declaration of the table can still be brought back to the source
/// it had in `base`: the backup records that source exactly while the
/// live source differs from it.
pub open spec fn entries_restorable(
    cur: Seq<DepEntryV>,
    base: Seq<DepEntryV>,
    prefix: Seq<Seq<char>>,
    led: LedgerImage,
) -> bool {
    &&& tracks_base(cur, base)
    &&& forall|i: int|
        0 <= i < cur.len() && !((#[trigger] cur[i]).value is Other) ==> restorable_decl(
            cur[i].value,
            led,
            prefix.push(cur[i].name),
            table_form_v(base[i].value).source,
        )
}

/// The well-formedness a table has when read from a document: unique keys
/// and no `package` rename (renames break the lookup-by-name of backups,
/// so the round-trip guarantee leaves them out).
pub open spec fn base_wf(base: Seq<DepEntryV>) -> bool {
    &&& unique_names(base)
    &&& forall|i: int|
        0 <= i < base.len() && !((#[trigger] base[i]).value is Other) ==> unaliased_decl(
            base[i].name,
            base[i].value,
        )
}

/// Whether `p` is the key path of a declaration this pass steps.
pub open spec fn is_pass_path(
    cur: Seq<DepEntryV>,
    prefix: Seq<Seq<char>>,
    p: Seq<Seq<char>>,
    want_table: bool,
) -> bool {
    exists|i: int|
        0 <= i < cur.len() && in_pass((#[trigger] cur[i]).value, want_table) && p == prefix.push(
            cur[i].name,
        )
}

/// The declarations this pass steps are restorable to their base source.
pub open spec fn pass_restorable(
    cur: Seq<DepEntryV>,
    base: Seq<DepEntryV>,
    prefix: Seq<Seq<char>>,
    led: LedgerImage,
    want_table: bool,
) -> bool {
    forall|i: int|
        0 <= i < cur.len() && in_pass((#[trigger] cur[i]).value, want_table) ==> restorable_decl(
            cur[i].value,
            led,
            prefix.push(cur[i].name),
            table_form_v(base[i].value).source,
        )
}

/// One pass, whatever its outcomes, keeps every declaration it steps
/// restorable to its base source, and touches no ledger path outside
/// those declarations' own paths.
proof fn lemma_restorable_pass(
    cur: Seq<DepEntryV>,
    base: Seq<DepEntryV>,
    prefix: Seq<Seq<char>>,
    led: LedgerImage,
    outs: Seq<OutcomeV>,
    want_table: bool,
    fi: bool,
)
    requires
        base_wf(base),
        tracks_base(cur, base),
        pass_restorable(cur, base, prefix, led, want_table),
    ensures
        ({
            let r = apply_sel(cur, prefix, led, outs, want_table, fi);
            &&& tracks_base(r.entries, base)
            &&& forall|i: int|
                0 <= i < cur.len() && in_pass((#[trigger] cur[i]).value, want_table)
                    ==> restorable_decl(
                    r.entries[i].value,
                    r.led,
                    prefix.push(cur[i].name),
                    table_form_v(base[i].value).source,
                )
            &&& forall|p: Seq<Seq<char>>|
                !is_pass_path(cur, prefix, p, want_table) ==> #[trigger] led_agree(led, r.led, p)
        }),
    decreases cur.len(),
{
    let r = apply_sel(cur, prefix, led, outs, want_table, fi);
    if cur.len() == 0 {
        assert forall|p: Seq<Seq<char>>|
            !is_pass_path(cur, prefix, p, want_table) implies #[trigger] led_agree(
            led,
            r.led,
            p,
        ) by {}
    } else {
        let e = cur[0];
        let name0 = e.name;
        let path0 = prefix.push(name0);
        let src0 = table_form_v(base[0].value).source;
        assert(base[0].name == name0);
        assert(base_wf(base.drop_first())) by {
            assert forall|i: int, j: int|
                0 <= i < j < base.drop_first().len() implies (#[trigger] base.drop_first()[
                i
            ]).name != (#[trigger] base.drop_first()[j]).name by {
                assert(base.drop_first()[i] == base[i + 1]);
                assert(base.drop_first()[j] == base[j + 1]);
            }
            assert forall|i: int|
                0 <= i < base.drop_first().len() && !((#[trigger] base.drop_first()[i]).value
                    is Other) implies unaliased_decl(
                base.drop_first()[i].name,
                base.drop_first()[i].value,
            ) by {
                assert(base.drop_first()[i] == base[i + 1]);
            }
        }
        let led1: LedgerImage = if in_pass(e.value, want_table) {
            step_v(path0, name0, e.value, led, outs[0], fi).led
        } else {
            led
        };
        let outs1: Seq<OutcomeV> = if in_pass(e.value, want_table) {
            outs.drop_first()
        } else {
            outs
        };
        if in_pass(e.value, want_table) {
            let st = step_v(path0, name0, e.value, led, outs[0], fi);
            assert(unaliased_decl(name0, e.value)) by {
                assert(table_form_v(e.value).package == table_form_v(base[0].value).package);
            }
            law_step_preserves_restorable(path0, name0, e.value, led, outs[0], fi, src0);
            assert(backup_path(path0, pkg_of_v(name0, table_form_v(e.value))) =~= path0);
            assert forall|p: Seq<Seq<char>>| p != path0 implies #[trigger] led_agree(
                led,
                st.led,
                p,
            ) by {
                match outs[0] {
                    OutcomeV::Unchanged => {},
                    OutcomeV::Replace(s) => {
                        if s != table_form_v(e.value).source {
                            law_backup_correctness(path0, name0, e.value, led, s, fi);
                        }
                    },
                }
            }
            match outs[0] {
                OutcomeV::Unchanged => {},
                OutcomeV::Replace(s) => {
                    if s != table_form_v(e.value).source {
                        lemma_step_source(path0, name0, e.value, led, s, fi);
                    }
                },
            }
        }
        assert(tracks_base(cur.drop_first(), base.drop_first())) by {
            assert forall|i: int|
                0 <= i < cur.drop_first().len() implies (#[trigger] cur.drop_first()[i]).name
                == base.drop_first()[i].name && ((cur.drop_first()[i].value is Other) == (
            base.drop_first()[i].value is Other)) && table_form_v(cur.drop_first()[i].value).package
                == table_form_v(base.drop_first()[i].value).package && table_form_v(
                cur.drop_first()[i].value,
            ).extra == table_form_v(base.drop_first()[i].value).extra by {
                assert(cur.drop_first()[i] == cur[i + 1]);
                assert(base.drop_first()[i] == base[i + 1]);
            }
        }
        assert(pass_restorable(cur.drop_first(), base.drop_first(), prefix, led1, want_table)) by {
            assert forall|i: int|
                0 <= i < cur.drop_first().len() && in_pass(
                    (#[trigger] cur.drop_first()[i]).value,
                    want_table,
                ) implies restorable_decl(
                cur.drop_first()[i].value,
                led1,
                prefix.push(cur.drop_first()[i].name),
                table_form_v(base.drop_first()[i].value).source,
            ) by {
                assert(cur.drop_first()[i] == cur[i + 1]);
                assert(base.drop_first()[i] == base[i + 1]);
                assert(cur[i + 1].name != name0);
                assert(prefix.push(cur[i + 1].name) != path0) by {
                    assert(prefix.push(cur[i + 1].name).last() == cur[i + 1].name);
                    assert(path0.last() == name0);
                }
                assert(led_agree(led, led1, prefix.push(cur[i + 1].name)));
            }
        }
        lemma_restorable_pass(
            cur.drop_first(),
            base.drop_first(),
            prefix,
            led1,
            outs1,
            want_table,
            fi,
        );
        let rrest = apply_sel(cur.drop_first(), prefix, led1, outs1, want_table, fi);
        assert(!is_pass_path(cur.drop_first(), prefix, path0, want_table)) by {
            if is_pass_path(cur.drop_first(), prefix, path0, want_table) {
                let i = choose|i: int|
                    0 <= i < cur.drop_first().len() && in_pass(
                        (#[trigger] cur.drop_first()[i]).value,
                        want_table,
                    ) && path0 == prefix.push(cur.drop_first()[i].name);
                assert(cur.drop_first()[i] == cur[i + 1]);
                assert(prefix.push(cur[i + 1].name).last() == cur[i + 1].name);
                assert(path0.last() == name0);
                assert(base[i + 1].name == base[0].name);
            }
        }
        assert(led_agree(led1, rrest.led, path0));
        let head = if in_pass(e.value, want_table) {
            DepEntryV { name: name0, value: step_v(path0, name0, e.value, led, outs[0], fi).value }
        } else {
            e
        };
        assert(r.entries == seq![head] + rrest.entries);
        assert(r.led == rrest.led);
        assert(tracks_base(r.entries, base)) by {
            assert forall|i: int|
                0 <= i < r.entries.len() implies (#[trigger] r.entries[i]).name == base[i].name
                && ((r.entries[i].value is Other) == (base[i].value is Other)) && table_form_v(
                r.entries[i].value,
            ).package == table_form_v(base[i].value).package && table_form_v(
                r.entries[i].value,
            ).extra == table_form_v(base[i].value).extra by {
                if i > 0 {
                    assert(r.entries[i] == rrest.entries[i - 1]);
                    assert(base.drop_first()[i - 1] == base[i]);
                }
            }
        }
        assert forall|i: int|
            0 <= i < cur.len() && in_pass((#[trigger] cur[i]).value, want_table)
                implies restorable_decl(
            r.entries[i].value,
            r.led,
            prefix.push(cur[i].name),
            table_form_v(base[i].value).source,
        ) by {
            if i == 0 {
                assert(r.entries[0] == head);
                assert(restorable_decl(head.value, led1, path0, src0));
                assert(led_agree(led1, r.led, path0));
            } else {
                assert(r.entries[i] == rrest.entries[i - 1]);
                assert(cur.drop_first()[i - 1] == cur[i]);
                assert(base.drop_first()[i - 1] == base[i]);
            }
        }
        assert forall|p: Seq<Seq<char>>|
            !is_pass_path(cur, prefix, p, want_table) implies #[trigger] led_agree(
            led,
            r.led,
            p,
        ) by {
            if in_pass(cur[0].value, want_table) && p == path0 {
                assert(is_pass_path(cur, prefix, p, want_table));
            }
            assert(led_agree(led, led1, p));
            assert(!is_pass_path(cur.drop_first(), prefix, p, want_table)) by {
                if is_pass_path(cur.drop_first(), prefix, p, want_table) {
                    let i = choose|i: int|
                        0 <= i < cur.drop_first().len() && in_pass(
                            (#[trigger] cur.drop_first()[i]).value,
                            want_table,
                        ) && p == prefix.push(cur.drop_first()[i].name);
                    assert(cur.drop_first()[i] == cur[i + 1]);
                    assert(p == prefix.push(cur[i + 1].name));
                }
            }
            assert(led_agree(led1, r.led, p));
        }
    }
}

/// Records do not depend on ledger paths the pass never reads.
proof fn lemma_records_sel_agree(
    entries: Seq<DepEntryV>,
    prefix: Seq<Seq<char>>,
    l1: LedgerImage,
    l2: LedgerImage,
    want_table: bool,
)
    requires
        forall|i: int|
            0 <= i < entries.len() && in_pass((#[trigger] entries[i]).value, want_table)
                ==> led_agree(l1, l2, prefix.push(entries[i].name)),
    ensures
        records_sel(entries, prefix, l1, want_table) == records_sel(
            entries,
            prefix,
            l2,
            want_table,
        ),
    decreases entries.len(),
{
    if entries.len() > 0 {
        assert forall|i: int|
            0 <= i < entries.drop_first().len() && in_pass(
                (#[trigger] entries.drop_first()[i]).value,
                want_table,
            ) implies led_agree(l1, l2, prefix.push(entries.drop_first()[i].name)) by {
            assert(entries.drop_first()[i] == entries[i + 1]);
        }
        lemma_records_sel_agree(entries.drop_first(), prefix, l1, l2, want_table);
        if in_pass(entries[0].value, want_table) {
            assert(led_agree(l1, l2, prefix.push(entries[0].name)));
            assert(record_v(prefix.push(entries[0].name), entries[0].name, entries[0].value, l1)
                == record_v(prefix.push(entries[0].name), entries[0].name, entries[0].value, l2));
        }
        assert(records_sel(entries, prefix, l1, want_table) =~= records_sel(
            entries,
            prefix,
            l2,
            want_table,
        ));
    }
}

/// One revert pass — each outcome is the corresponding record's original
/// source — restores every declaration it steps to its base source and
/// leaves it without a backup.
proof fn lemma_revert_pass(
    cur: Seq<DepEntryV>,
    base: Seq<DepEntryV>,
    prefix: Seq<Seq<char>>,
    led: LedgerImage,
    outs: Seq<OutcomeV>,
    want_table: bool,
)
    requires
        base_wf(base),
        tracks_base(cur, base),
        pass_restorable(cur, base, prefix, led, want_table),
        outs.len() >= records_sel(cur, prefix, led, want_table).len(),
        forall|k: int|
            0 <= k < records_sel(cur, prefix, led, want_table).len() ==> outs[k]
                == OutcomeV::Replace(
                (#[trigger] records_sel(cur, prefix, led, want_table)[k]).original_source,
            ),
    ensures
        ({
            let r = apply_sel(cur, prefix, led, outs, want_table, false);
            forall|i: int|
                0 <= i < cur.len() && in_pass((#[trigger] cur[i]).value, want_table)
                    ==> table_form_v(r.entries[i].value).source == table_form_v(
                    base[i].value,
                ).source && !r.led.dom().contains(prefix.push(cur[i].name))
        }),
    decreases cur.len(),
{
    let r = apply_sel(cur, prefix, led, outs, want_table, false);
    let rs = records_sel(cur, prefix, led, want_table);
    if cur.len() > 0 {
        let e = cur[0];
        let name0 = e.name;
        let path0 = prefix.push(name0);
        let src0 = table_form_v(base[0].value).source;
        let led1: LedgerImage = if in_pass(e.value, want_table) {
            step_v(path0, name0, e.value, led, outs[0], false).led
        } else {
            led
        };
        let outs1: Seq<OutcomeV> = if in_pass(e.value, want_table) {
            outs.drop_first()
        } else {
            outs
        };
        assert(tracks_base(cur.drop_first(), base.drop_first())) by {
            assert forall|i: int|
                0 <= i < cur.drop_first().len() implies (#[trigger] cur.drop_first()[i]).name
                == base.drop_first()[i].name && ((cur.drop_first()[i].value is Other) == (
            base.drop_first()[i].value is Other)) && table_form_v(cur.drop_first()[i].value).package
                == table_form_v(base.drop_first()[i].value).package && table_form_v(
                cur.drop_first()[i].value,
            ).extra == table_form_v(base.drop_first()[i].value).extra by {
                assert(cur.drop_first()[i] == cur[i + 1]);
                assert(base.drop_first()[i] == base[i + 1]);
            }
        }
        assert(base_wf(base.drop_first())) by {
            assert forall|i: int, j: int|
                0 <= i < j < base.drop_first().len() implies (#[trigger] base.drop_first()[
                i
            ]).name != (#[trigger] base.drop_first()[j]).name by {
                assert(base.drop_first()[i] == base[i + 1]);
                assert(base.drop_first()[j] == base[j + 1]);
            }
            assert forall|i: int|
                0 <= i < base.drop_first().len() && !((#[trigger] base.drop_first()[i]).value
                    is Other) implies unaliased_decl(
                base.drop_first()[i].name,
                base.drop_first()[i].value,
            ) by {
                assert(base.drop_first()[i] == base[i + 1]);
            }
        }
        if in_pass(e.value, want_table) {
            let rec0 = record_v(path0, name0, e.value, led);
            assert(rs[0] == rec0);
            assert(outs[0] == OutcomeV::Replace(rec0.original_source));
            assert(unaliased_decl(name0, e.value)) by {
                assert(table_form_v(e.value).package == table_form_v(base[0].value).package);
            }
            law_revert_step_restores(path0, name0, e.value, led, src0);
            let st = step_v(path0, name0, e.value, led, outs[0], false);
            assert(table_form_v(st.value).source == src0);
            assert(!st.led.dom().contains(path0));
            // the step only touches this declaration's own path
            assert(backup_path(path0, pkg_of_v(name0, table_form_v(e.value))) =~= path0);
            assert forall|p: Seq<Seq<char>>| p != path0 implies #[trigger] led_agree(
                led,
                st.led,
                p,
            ) by {
                match outs[0] {
                    OutcomeV::Unchanged => {},
                    OutcomeV::Replace(s) => {
                        if s != table_form_v(e.value).source {
                            law_backup_correctness(path0, name0, e.value, led, s, false);
                        }
                    },
                }
            }
            // the rest's records, read against the stepped image, are the
            // tail of the records read against the initial one
            assert forall|i: int|
                0 <= i < cur.drop_first().len() && in_pass(
                    (#[trigger] cur.drop_first()[i]).value,
                    want_table,
                ) implies led_agree(led, st.led, prefix.push(cur.drop_first()[i].name)) by {
                assert(cur.drop_first()[i] == cur[i + 1]);
                assert(base[i + 1].name != base[0].name);
                assert(prefix.push(cur[i + 1].name).last() == cur[i + 1].name);
                assert(path0.last() == name0);
            }
            lemma_records_sel_agree(cur.drop_first(), prefix, led, st.led, want_table);
            assert forall|k: int|
                0 <= k < records_sel(cur.drop_first(), prefix, st.led, want_table).len()
                    implies outs1[k] == OutcomeV::Replace(
                (#[trigger] records_sel(cur.drop_first(), prefix, st.led, want_table)[
                    k
                ]).original_source,
            ) by {
                assert(records_sel(cur.drop_first(), prefix, st.led, want_table)[k]
                    == records_sel(cur.drop_first(), prefix, led, want_table)[k]);
                assert(rs[k + 1] == records_sel(cur.drop_first(), prefix, led, want_table)[k]);
                assert(outs1[k] == outs[k + 1]);
            }
            assert(pass_restorable(cur.drop_first(), base.drop_first(), prefix, st.led, want_table))
                by {
                assert forall|i: int|
                    0 <= i < cur.drop_first().len() && in_pass(
                        (#[trigger] cur.drop_first()[i]).value,
                        want_table,
                    ) implies restorable_decl(
                    cur.drop_first()[i].value,
                    st.led,
                    prefix.push(cur.drop_first()[i].name),
                    table_form_v(base.drop_first()[i].value).source,
                ) by {
                    assert(cur.drop_first()[i] == cur[i + 1]);
                    assert(base.drop_first()[i] == base[i + 1]);
                    assert(prefix.push(cur[i + 1].name).last() == cur[i + 1].name);
                    assert(path0.last() == name0);
                    assert(led_agree(led, st.led, prefix.push(cur[i + 1].name)));
                }
            }
            lemma_revert_pass(cur.drop_first(), base.drop_first(), prefix, st.led, outs1, want_table);
            // the rest never touches the head's path, so the head stays
            // restored and backup-free
            lemma_restorable_pass(
                cur.drop_first(),
                base.drop_first(),
                prefix,
                st.led,
                outs1,
                want_table,
                false,
            );
            let rrest = apply_sel(cur.drop_first(), prefix, st.led, outs1, want_table, false);
            assert(!is_pass_path(cur.drop_first(), prefix, path0, want_table)) by {
                if is_pass_path(cur.drop_first(), prefix, path0, want_table) {
                    let i = choose|i: int|
                        0 <= i < cur.drop_first().len() && in_pass(
                            (#[trigger] cur.drop_first()[i]).value,
                            want_table,
                        ) && path0 == prefix.push(cur.drop_first()[i].name);
                    assert(cur.drop_first()[i] == cur[i + 1]);
                    assert(prefix.push(cur[i + 1].name).last() == cur[i + 1].name);
                    assert(path0.last() == name0);
                    assert(base[i + 1].name == base[0].name);
                }
            }
            assert(led_agree(st.led, rrest.led, path0));
            assert(r.entries == seq![DepEntryV { name: name0, value: st.value }] + rrest.entries);
            assert(r.led == rrest.led);
            assert forall|i: int|
                0 <= i < cur.len() && in_pass((#[trigger] cur[i]).value, want_table)
                    implies table_form_v(r.entries[i].value).source == table_form_v(
                base[i].value,
            ).source && !r.led.dom().contains(prefix.push(cur[i].name)) by {
                if i == 0 {
                    assert(r.entries[0].value == st.value);
                } else {
                    assert(r.entries[i] == rrest.entries[i - 1]);
                    assert(cur.drop_first()[i - 1] == cur[i]);
                    assert(base.drop_first()[i - 1] == base[i]);
                }
            }
        } else {
            assert(pass_restorable(cur.drop_first(), base.drop_first(), prefix, led, want_table))
                by {
                assert forall|i: int|
                    0 <= i < cur.drop_first().len() && in_pass(
                        (#[trigger] cur.drop_first()[i]).value,
                        want_table,
                    ) implies restorable_decl(
                    cur.drop_first()[i].value,
                    led,
                    prefix.push(cur.drop_first()[i].name),
                    table_form_v(base.drop_first()[i].value).source,
                ) by {
                    assert(cur.drop_first()[i] == cur[i + 1]);
                    assert(base.drop_first()[i] == base[i + 1]);
                }
            }
            assert forall|k: int|
                0 <= k < records_sel(cur.drop_first(), prefix, led, want_table).len()
                    implies outs1[k] == OutcomeV::Replace(
                (#[trigger] records_sel(cur.drop_first(), prefix, led, want_table)[
                    k
                ]).original_source,
            ) by {
                assert(rs[k] == records_sel(cur.drop_first(), prefix, led, want_table)[k]);
            }
            lemma_revert_pass(cur.drop_first(), base.drop_first(), prefix, led, outs1, want_table);
            lemma_apply_sel_shape(cur.drop_first(), prefix, led, outs1, want_table, false);
            let rrest = apply_sel(cur.drop_first(), prefix, led, outs1, want_table, false);
            assert(rrest.entries.len() == cur.drop_first().len());
            assert(r.entries == seq![e] + rrest.entries);
            assert(r.led == rrest.led);
            assert forall|i: int|
                0 <= i < cur.len() && in_pass((#[trigger] cur[i]).value, want_table)
                    implies table_form_v(r.entries[i].value).source == table_form_v(
                base[i].value,
            ).source && !r.led.dom().contains(prefix.push(cur[i].name)) by {
                assert(i > 0);
                assert(r.entries[i] == rrest.entries[i - 1]);
                assert(cur.drop_first()[i - 1] == cur[i]);
                assert(base.drop_first()[i - 1] == base[i]);
            }
        }
    }
}

/// A table read from a document with no backups for it is restorable to
/// itself.
pub proof fn law_fresh_table_restorable(
    base: Seq<DepEntryV>,
    prefix: Seq<Seq<char>>,
    led: LedgerImage,
)
    requires
        led == Map::<Seq<Seq<char>>, SourceV>::empty(),
    ensures
        entries_restorable(base, base, prefix, led),
{
}

/// Round trip, whole table, first half: one full run over a dependency
/// table — the table pass then the string pass, any outcomes — keeps
/// every declaration restorable to the source it had before the first
/// run, and touches no ledger path outside the table's own declaration
/// paths.
pub proof fn law_table_patch_preserves_restorable(
    cur: Seq<DepEntryV>,
    base: Seq<DepEntryV>,
    prefix: Seq<Seq<char>>,
    led: LedgerImage,
    outs: Seq<OutcomeV>,
    fi: bool,
)
    requires
        base_wf(base),
        entries_restorable(cur, base, prefix, led),
    ensures
        ({
            let r = apply_deps(cur, prefix, led, outs, fi);
            &&& entries_restorable(r.entries, base, prefix, r.led)
            &&& forall|p: Seq<Seq<char>>|
                !is_decl_path(base, prefix, p) ==> #[trigger] led_agree(led, r.led, p)
        }),
{
    let r = apply_deps(cur, prefix, led, outs, fi);
    let p1 = apply_sel(cur, prefix, led, outs, true, fi);
    let outs2 = outs.skip(p1.used as int);
    let p2 = apply_sel(cur, prefix, p1.led, outs2, false, fi);
    lemma_restorable_pass(cur, base, prefix, led, outs, true, fi);
    lemma_apply_sel_shape(cur, prefix, led, outs, true, fi);
    // a declaration's key path determines the declaration: keys are unique
    assert forall|i: int, j: int|
        0 <= i < cur.len() && 0 <= j < cur.len() && prefix.push(
            (#[trigger] cur[i]).name,
        ) == prefix.push((#[trigger] cur[j]).name) implies i == j by {
        assert(prefix.push(cur[i].name).last() == cur[i].name);
        assert(prefix.push(cur[j].name).last() == cur[j].name);
        assert(base[i].name == base[j].name);
        if i < j {
        } else if j < i {
        }
    }
    assert(pass_restorable(cur, base, prefix, p1.led, false)) by {
        assert forall|i: int|
            0 <= i < cur.len() && in_pass((#[trigger] cur[i]).value, false)
                implies restorable_decl(
            cur[i].value,
            p1.led,
            prefix.push(cur[i].name),
            table_form_v(base[i].value).source,
        ) by {
            assert(!is_pass_path(cur, prefix, prefix.push(cur[i].name), true)) by {
                if is_pass_path(cur, prefix, prefix.push(cur[i].name), true) {
                    let j = choose|j: int|
                        0 <= j < cur.len() && in_pass((#[trigger] cur[j]).value, true)
                            && prefix.push(cur[i].name) == prefix.push(cur[j].name);
                }
            }
            assert(led_agree(led, p1.led, prefix.push(cur[i].name)));
        }
    }
    lemma_restorable_pass(cur, base, prefix, p1.led, outs2, false, fi);
    lemma_apply_sel_shape(cur, prefix, p1.led, outs2, false, fi);
    assert(entries_restorable(r.entries, base, prefix, r.led)) by {
        assert forall|i: int|
            0 <= i < r.entries.len() implies (#[trigger] r.entries[i]).name == base[i].name && ((
        r.entries[i].value is Other) == (base[i].value is Other)) && table_form_v(
            r.entries[i].value,
        ).package == table_form_v(base[i].value).package && table_form_v(r.entries[i].value).extra
            == table_form_v(base[i].value).extra by {
            if cur[i].value is TableForm {
                assert(r.entries[i] == p1.entries[i]);
            } else {
                assert(r.entries[i] == p2.entries[i]);
                if !(cur[i].value is VersionStr) {
                    assert(p2.entries[i] == cur[i]);
                }
            }
        }
        assert forall|i: int|
            0 <= i < r.entries.len() && !((#[trigger] r.entries[i]).value is Other)
                implies restorable_decl(
            r.entries[i].value,
            r.led,
            prefix.push(r.entries[i].name),
            table_form_v(base[i].value).source,
        ) by {
            if cur[i].value is TableForm {
                assert(r.entries[i] == p1.entries[i]);
                assert(restorable_decl(
                    p1.entries[i].value,
                    p1.led,
                    prefix.push(cur[i].name),
                    table_form_v(base[i].value).source,
                ));
                assert(!is_pass_path(cur, prefix, prefix.push(cur[i].name), false)) by {
                    if is_pass_path(cur, prefix, prefix.push(cur[i].name), false) {
                        let j = choose|j: int|
                            0 <= j < cur.len() && in_pass((#[trigger] cur[j]).value, false)
                                && prefix.push(cur[i].name) == prefix.push(cur[j].name);
                    }
                }
                assert(led_agree(p1.led, p2.led, prefix.push(cur[i].name)));
            } else if cur[i].value is VersionStr {
                assert(r.entries[i] == p2.entries[i]);
            } else {
                assert(r.entries[i] == p2.entries[i]);
                assert(p2.entries[i] == cur[i]);
            }
        }
    }
    assert forall|p: Seq<Seq<char>>|
        !is_decl_path(base, prefix, p) implies #[trigger] led_agree(led, r.led, p) by {
        assert(!is_pass_path(cur, prefix, p, true)) by {
            if is_pass_path(cur, prefix, p, true) {
                let j = choose|j: int|
                    0 <= j < cur.len() && in_pass((#[trigger] cur[j]).value, true) && p
                        == prefix.push(cur[j].name);
                assert(p == prefix.push(base[j].name));
            }
        }
        assert(!is_pass_path(cur, prefix, p, false)) by {
            if is_pass_path(cur, prefix, p, false) {
                let j = choose|j: int|
                    0 <= j < cur.len() && in_pass((#[trigger] cur[j]).value, false) && p
                        == prefix.push(cur[j].name);
                assert(p == prefix.push(base[j].name));
            }
        }
        assert(led_agree(led, p1.led, p));
        assert(led_agree(p1.led, p2.led, p));
    }
}

/// After a run whose every outcome is its record's original source, the
/// table is restored: the generalized revert, taking the outcomes as an
/// argument.
proof fn lemma_table_revert(
    cur: Seq<DepEntryV>,
    base: Seq<DepEntryV>,
    prefix: Seq<Seq<char>>,
    led: LedgerImage,
    outs: Seq<OutcomeV>,
)
    requires
        base_wf(base),
        entries_restorable(cur, base, prefix, led),
        outs.len() >= records_deps(cur, prefix, led).len(),
        forall|k: int|
            0 <= k < records_deps(cur, prefix, led).len() ==> outs[k] == OutcomeV::Replace(
                (#[trigger] records_deps(cur, prefix, led)[k]).original_source,
            ),
    ensures
        ({
            let r = apply_deps(cur, prefix, led, outs, false);
            &&& tracks_base(r.entries, base)
            &&& forall|i: int|
                0 <= i < cur.len() && !((#[trigger] cur[i]).value is Other) ==> table_form_v(
                    r.entries[i].value,
                ).source == table_form_v(base[i].value).source && !r.led.dom().contains(
                    prefix.push(cur[i].name),
                )
        }),
{
    let rsa = records_sel(cur, prefix, led, true);
    let rsb = records_sel(cur, prefix, led, false);
    let r = apply_deps(cur, prefix, led, outs, false);
    let p1 = apply_sel(cur, prefix, led, outs, true, false);
    let outs2 = outs.skip(p1.used as int);
    let p2 = apply_sel(cur, prefix, p1.led, outs2, false, false);
    assert forall|k: int| 0 <= k < rsa.len() implies outs[k] == OutcomeV::Replace(
        (#[trigger] rsa[k]).original_source,
    ) by {
        assert(records_deps(cur, prefix, led)[k] == rsa[k]);
    }
    lemma_revert_pass(cur, base, prefix, led, outs, true);
    lemma_restorable_pass(cur, base, prefix, led, outs, true, false);
    lemma_apply_sel_shape(cur, prefix, led, outs, true, false);
    lemma_apply_sel_used(cur, prefix, led, outs, true, false);
    assert(p1.used == rsa.len());
    // the first pass never reads or writes a string declaration's path
    assert forall|i: int|
        0 <= i < cur.len() && in_pass((#[trigger] cur[i]).value, false) implies led_agree(
        led,
        p1.led,
        prefix.push(cur[i].name),
    ) by {
        assert(!is_pass_path(cur, prefix, prefix.push(cur[i].name), true)) by {
            if is_pass_path(cur, prefix, prefix.push(cur[i].name), true) {
                let j = choose|j: int|
                    0 <= j < cur.len() && in_pass((#[trigger] cur[j]).value, true) && prefix.push(
                        cur[i].name,
                    ) == prefix.push(cur[j].name);
                assert(prefix.push(cur[i].name).last() == cur[i].name);
                assert(prefix.push(cur[j].name).last() == cur[j].name);
                assert(base[i].name == base[j].name);
            }
        }
    }
    lemma_records_sel_agree(cur, prefix, led, p1.led, false);
    assert(records_sel(cur, prefix, p1.led, false) == rsb);
    assert(pass_restorable(cur, base, prefix, p1.led, false)) by {
        assert forall|i: int|
            0 <= i < cur.len() && in_pass((#[trigger] cur[i]).value, false)
                implies restorable_decl(
            cur[i].value,
            p1.led,
            prefix.push(cur[i].name),
            table_form_v(base[i].value).source,
        ) by {
            assert(led_agree(led, p1.led, prefix.push(cur[i].name)));
        }
    }
    assert forall|k: int|
        0 <= k < records_sel(cur, prefix, p1.led, false).len() implies outs2[k]
        == OutcomeV::Replace(
        (#[trigger] records_sel(cur, prefix, p1.led, false)[k]).original_source,
    ) by {
        assert(records_sel(cur, prefix, p1.led, false)[k] == rsb[k]);
        assert(records_deps(cur, prefix, led)[rsa.len() + k] == rsb[k]);
        assert(outs2[k] == outs[rsa.len() + k]);
    }
    lemma_revert_pass(cur, base, prefix, p1.led, outs2, false);
    lemma_restorable_pass(cur, base, prefix, p1.led, outs2, false, false);
    lemma_apply_sel_shape(cur, prefix, p1.led, outs2, false, false);
    assert(tracks_base(r.entries, base)) by {
        assert forall|i: int|
            0 <= i < r.entries.len() implies (#[trigger] r.entries[i]).name == base[i].name && ((
        r.entries[i].value is Other) == (base[i].value is Other)) && table_form_v(
            r.entries[i].value,
        ).package == table_form_v(base[i].value).package && table_form_v(r.entries[i].value).extra
            == table_form_v(base[i].value).extra by {
            if cur[i].value is TableForm {
                assert(r.entries[i] == p1.entries[i]);
            } else {
                assert(r.entries[i] == p2.entries[i]);
                if !(cur[i].value is VersionStr) {
                    assert(p2.entries[i] == cur[i]);
                }
            }
        }
    }
    assert forall|i: int|
        0 <= i < cur.len() && !((#[trigger] cur[i]).value is Other) implies table_form_v(
        r.entries[i].value,
    ).source == table_form_v(base[i].value).source && !r.led.dom().contains(
        prefix.push(cur[i].name),
    ) by {
        if cur[i].value is TableForm {
            assert(r.entries[i] == p1.entries[i]);
            assert(!p1.led.dom().contains(prefix.push(cur[i].name)));
            assert(!is_pass_path(cur, prefix, prefix.push(cur[i].name), false)) by {
                if is_pass_path(cur, prefix, prefix.push(cur[i].name), false) {
                    let j = choose|j: int|
                        0 <= j < cur.len() && in_pass((#[trigger] cur[j]).value, false)
                            && prefix.push(cur[i].name) == prefix.push(cur[j].name);
                    assert(prefix.push(cur[i].name).last() == cur[i].name);
                    assert(prefix.push(cur[j].name).last() == cur[j].name);
                    assert(base[i].name == base[j].name);
                }
            }
            assert(led_agree(p1.led, p2.led, prefix.push(cur[i].name)));
        } else {
            assert(r.entries[i] == p2.entries[i]);
        }
    }
}

/// Round trip, whole table, second half: a revert run over a restorable
/// table brings every declaration back to the exact source it had before
/// the first patch, field for field, and leaves none of them with a
/// backup.
pub proof fn law_table_revert_restores(
    cur: Seq<DepEntryV>,
    base: Seq<DepEntryV>,
    prefix: Seq<Seq<char>>,
    led: LedgerImage,
)
    requires
        base_wf(base),
        entries_restorable(cur, base, prefix, led),
    ensures
        ({
            let outs = revert_outcomes(records_deps(cur, prefix, led));
            let r = apply_deps(cur, prefix, led, outs, false);
            &&& tracks_base(r.entries, base)
            &&& forall|i: int|
                0 <= i < cur.len() && !((#[trigger] cur[i]).value is Other) ==> table_form_v(
                    r.entries[i].value,
                ).source == table_form_v(base[i].value).source && !r.led.dom().contains(
                    prefix.push(cur[i].name),
                )
        }),
{
    let outs = revert_outcomes(records_deps(cur, prefix, led));
    lemma_table_revert(cur, base, prefix, led, outs);
}


/// Whatever a pass does, it touches no ledger path outside the paths of
/// the declarations it steps.
proof fn lemma_sel_footprint(
    cur: Seq<DepEntryV>,
    prefix: Seq<Seq<char>>,
    led: LedgerImage,
    outs: Seq<OutcomeV>,
    want_table: bool,
    fi: bool,
)
    requires
        unique_names(cur),
        forall|i: int|
            0 <= i < cur.len() && !((#[trigger] cur[i]).value is Other) ==> unaliased_decl(
                cur[i].name,
                cur[i].value,
            ),
    ensures
        ({
            let r = apply_sel(cur, prefix, led, outs, want_table, fi);
            forall|p: Seq<Seq<char>>|
                !is_pass_path(cur, prefix, p, want_table) ==> #[trigger] led_agree(led, r.led, p)
        }),
    decreases cur.len(),
{
    let r = apply_sel(cur, prefix, led, outs, want_table, fi);
    if cur.len() == 0 {
        assert forall|p: Seq<Seq<char>>|
            !is_pass_path(cur, prefix, p, want_table) implies #[trigger] led_agree(
            led,
            r.led,
            p,
        ) by {}
    } else {
        let e = cur[0];
        let name0 = e.name;
        let path0 = prefix.push(name0);
        let led1: LedgerImage = if in_pass(e.value, want_table) {
            step_v(path0, name0, e.value, led, outs[0], fi).led
        } else {
            led
        };
        let outs1: Seq<OutcomeV> = if in_pass(e.value, want_table) {
            outs.drop_first()
        } else {
            outs
        };
        if in_pass(e.value, want_table) {
            let st = step_v(path0, name0, e.value, led, outs[0], fi);
            assert(backup_path(path0, pkg_of_v(name0, table_form_v(e.value))) =~= path0);
            assert forall|p: Seq<Seq<char>>| p != path0 implies #[trigger] led_agree(
                led,
                st.led,
                p,
            ) by {
                match outs[0] {
                    OutcomeV::Unchanged => {},
                    OutcomeV::Replace(s) => {
                        if s != table_form_v(e.value).source {
                            law_backup_correctness(path0, name0, e.value, led, s, fi);
                        }
                    },
                }
            }
        }
        assert(unique_names(cur.drop_first())) by {
            assert forall|i: int, j: int|
                0 <= i < j < cur.drop_first().len() implies (#[trigger] cur.drop_first()[
                i
            ]).name != (#[trigger] cur.drop_first()[j]).name by {
                assert(cur.drop_first()[i] == cur[i + 1]);
                assert(cur.drop_first()[j] == cur[j + 1]);
            }
        }
        assert forall|i: int|
            0 <= i < cur.drop_first().len() && !((#[trigger] cur.drop_first()[i]).value
                is Other) implies unaliased_decl(
            cur.drop_first()[i].name,
            cur.drop_first()[i].value,
        ) by {
            assert(cur.drop_first()[i] == cur[i + 1]);
        }
        lemma_sel_footprint(cur.drop_first(), prefix, led1, outs1, want_table, fi);
        let rrest = apply_sel(cur.drop_first(), prefix, led1, outs1, want_table, fi);
        assert(r.led == rrest.led);
        assert forall|p: Seq<Seq<char>>|
            !is_pass_path(cur, prefix, p, want_table) implies #[trigger] led_agree(
            led,
            r.led,
            p,
        ) by {
            if in_pass(cur[0].value, want_table) && p == path0 {
                assert(is_pass_path(cur, prefix, p, want_table));
            }
            assert(led_agree(led, led1, p));
            assert(!is_pass_path(cur.drop_first(), prefix, p, want_table)) by {
                if is_pass_path(cur.drop_first(), prefix, p, want_table) {
                    let i = choose|i: int|
                        0 <= i < cur.drop_first().len() && in_pass(
                            (#[trigger] cur.drop_first()[i]).value,
                            want_table,
                        ) && p == prefix.push(cur.drop_first()[i].name);
                    assert(cur.drop_first()[i] == cur[i + 1]);
                    assert(p == prefix.push(cur[i + 1].name));
                }
            }
            assert(led_agree(led1, r.led, p));
        }
    }
}

/// One pass driven by a stable decision leaves every declaration it
/// stepped in a state the same decision will no longer change.
proof fn lemma_idempotent_pass(
    cur: Seq<DepEntryV>,
    prefix: Seq<Seq<char>>,
    led: LedgerImage,
    d: spec_fn(InputV) -> OutcomeV,
    outs: Seq<OutcomeV>,
    want_table: bool,
)
    requires
        unique_names(cur),
        forall|i: int|
            0 <= i < cur.len() && !((#[trigger] cur[i]).value is Other) ==> unaliased_decl(
                cur[i].name,
                cur[i].value,
            ),
        decision_stable(d),
        outs.len() >= records_sel(cur, prefix, led, want_table).len(),
        forall|k: int|
            0 <= k < records_sel(cur, prefix, led, want_table).len() ==> outs[k] == d(
                #[trigger] records_sel(cur, prefix, led, want_table)[k],
            ),
    ensures
        ({
            let r = apply_sel(cur, prefix, led, outs, want_table, false);
            forall|i: int|
                0 <= i < cur.len() && in_pass((#[trigger] cur[i]).value, want_table)
                    ==> noop_outcome(
                    d(record_v(prefix.push(cur[i].name), cur[i].name, r.entries[i].value, r.led)),
                    record_v(prefix.push(cur[i].name), cur[i].name, r.entries[i].value, r.led),
                )
        }),
    decreases cur.len(),
{
    let r = apply_sel(cur, prefix, led, outs, want_table, false);
    let rs = records_sel(cur, prefix, led, want_table);
    if cur.len() > 0 {
        let e = cur[0];
        let name0 = e.name;
        let path0 = prefix.push(name0);
        let led1: LedgerImage = if in_pass(e.value, want_table) {
            step_v(path0, name0, e.value, led, outs[0], false).led
        } else {
            led
        };
        let outs1: Seq<OutcomeV> = if in_pass(e.value, want_table) {
            outs.drop_first()
        } else {
            outs
        };
        assert(unique_names(cur.drop_first())) by {
            assert forall|i: int, j: int|
                0 <= i < j < cur.drop_first().len() implies (#[trigger] cur.drop_first()[
                i
            ]).name != (#[trigger] cur.drop_first()[j]).name by {
                assert(cur.drop_first()[i] == cur[i + 1]);
                assert(cur.drop_first()[j] == cur[j + 1]);
            }
        }
        assert forall|i: int|
            0 <= i < cur.drop_first().len() && !((#[trigger] cur.drop_first()[i]).value
                is Other) implies unaliased_decl(
            cur.drop_first()[i].name,
            cur.drop_first()[i].value,
        ) by {
            assert(cur.drop_first()[i] == cur[i + 1]);
        }
        if in_pass(e.value, want_table) {
            let st = step_v(path0, name0, e.value, led, outs[0], false);
            let rec0 = record_v(path0, name0, e.value, led);
            assert(rs[0] == rec0);
            assert(outs[0] == d(rec0));
            law_patch_twice_declaration(path0, name0, e.value, led, d);
            // the step only touches this declaration's own path
            assert(backup_path(path0, pkg_of_v(name0, table_form_v(e.value))) =~= path0);
            assert forall|p: Seq<Seq<char>>| p != path0 implies #[trigger] led_agree(
                led,
                st.led,
                p,
            ) by {
                match outs[0] {
                    OutcomeV::Unchanged => {},
                    OutcomeV::Replace(s) => {
                        if s != table_form_v(e.value).source {
                            law_backup_correctness(path0, name0, e.value, led, s, false);
                        }
                    },
                }
            }
            // the tail's records are unchanged by the head's step
            assert forall|i: int|
                0 <= i < cur.drop_first().len() && in_pass(
                    (#[trigger] cur.drop_first()[i]).value,
                    want_table,
                ) implies led_agree(led, st.led, prefix.push(cur.drop_first()[i].name)) by {
                assert(cur.drop_first()[i] == cur[i + 1]);
                assert(cur[i + 1].name != name0);
                assert(prefix.push(cur[i + 1].name).last() == cur[i + 1].name);
                assert(path0.last() == name0);
            }
            lemma_records_sel_agree(cur.drop_first(), prefix, led, st.led, want_table);
            assert forall|k: int|
                0 <= k < records_sel(cur.drop_first(), prefix, st.led, want_table).len()
                    implies outs1[k] == d(
                #[trigger] records_sel(cur.drop_first(), prefix, st.led, want_table)[k],
            ) by {
                assert(records_sel(cur.drop_first(), prefix, st.led, want_table)[k]
                    == records_sel(cur.drop_first(), prefix, led, want_table)[k]);
                assert(rs[k + 1] == records_sel(cur.drop_first(), prefix, led, want_table)[k]);
                assert(outs1[k] == outs[k + 1]);
            }
            lemma_idempotent_pass(cur.drop_first(), prefix, st.led, d, outs1, want_table);
            lemma_sel_footprint(cur.drop_first(), prefix, st.led, outs1, want_table, false);
            lemma_apply_sel_shape(cur.drop_first(), prefix, st.led, outs1, want_table, false);
            let rrest = apply_sel(cur.drop_first(), prefix, st.led, outs1, want_table, false);
            assert(r.entries == seq![DepEntryV { name: name0, value: st.value }] + rrest.entries);
            assert(r.led == rrest.led);
            assert(!is_pass_path(cur.drop_first(), prefix, path0, want_table)) by {
                if is_pass_path(cur.drop_first(), prefix, path0, want_table) {
                    let i = choose|i: int|
                        0 <= i < cur.drop_first().len() && in_pass(
                            (#[trigger] cur.drop_first()[i]).value,
                            want_table,
                        ) && path0 == prefix.push(cur.drop_first()[i].name);
                    assert(cur.drop_first()[i] == cur[i + 1]);
                    assert(prefix.push(cur[i + 1].name).last() == cur[i + 1].name);
                    assert(path0.last() == name0);
                }
            }
            assert(led_agree(st.led, r.led, path0));
            assert forall|i: int|
                0 <= i < cur.len() && in_pass((#[trigger] cur[i]).value, want_table)
                    implies noop_outcome(
                d(record_v(prefix.push(cur[i].name), cur[i].name, r.entries[i].value, r.led)),
                record_v(prefix.push(cur[i].name), cur[i].name, r.entries[i].value, r.led),
            ) by {
                if i == 0 {
                    assert(r.entries[0].value == st.value);
                    assert(record_v(path0, name0, st.value, r.led) == record_v(
                        path0,
                        name0,
                        st.value,
                        st.led,
                    ));
                } else {
                    assert(r.entries[i] == rrest.entries[i - 1]);
                    assert(cur.drop_first()[i - 1] == cur[i]);
                }
            }
        } else {
            assert forall|k: int|
                0 <= k < records_sel(cur.drop_first(), prefix, led, want_table).len()
                    implies outs1[k] == d(
                #[trigger] records_sel(cur.drop_first(), prefix, led, want_table)[k],
            ) by {
                assert(rs[k] == records_sel(cur.drop_first(), prefix, led, want_table)[k]);
            }
            lemma_idempotent_pass(cur.drop_first(), prefix, led, d, outs1, want_table);
            lemma_apply_sel_shape(cur.drop_first(), prefix, led, outs1, want_table, false);
            let rrest = apply_sel(cur.drop_first(), prefix, led, outs1, want_table, false);
            assert(r.entries == seq![e] + rrest.entries);
            assert(r.led == rrest.led);
            assert forall|i: int|
                0 <= i < cur.len() && in_pass((#[trigger] cur[i]).value, want_table)
                    implies noop_outcome(
                d(record_v(prefix.push(cur[i].name), cur[i].name, r.entries[i].value, r.led)),
                record_v(prefix.push(cur[i].name), cur[i].name, r.entries[i].value, r.led),
            ) by {
                assert(i > 0);
                assert(r.entries[i] == rrest.entries[i - 1]);
                assert(cur.drop_first()[i - 1] == cur[i]);
            }
        }
    }
}

/// From per-declaration no-op decisions to per-record ones.
proof fn lemma_records_sel_noop(
    entries: Seq<DepEntryV>,
    prefix: Seq<Seq<char>>,
    led: LedgerImage,
    d: spec_fn(InputV) -> OutcomeV,
    want_table: bool,
)
    requires
        forall|i: int|
            0 <= i < entries.len() && in_pass((#[trigger] entries[i]).value, want_table)
                ==> noop_outcome(
                d(record_v(prefix.push(entries[i].name), entries[i].name, entries[i].value, led)),
                record_v(prefix.push(entries[i].name), entries[i].name, entries[i].value, led),
            ),
    ensures
        forall|k: int|
            0 <= k < records_sel(entries, prefix, led, want_table).len() ==> noop_outcome(
                d(#[trigger] records_sel(entries, prefix, led, want_table)[k]),
                records_sel(entries, prefix, led, want_table)[k],
            ),
    decreases entries.len(),
{
    if entries.len() > 0 {
        assert forall|i: int|
            0 <= i < entries.drop_first().len() && in_pass(
                (#[trigger] entries.drop_first()[i]).value,
                want_table,
            ) implies noop_outcome(
            d(record_v(
                prefix.push(entries.drop_first()[i].name),
                entries.drop_first()[i].name,
                entries.drop_first()[i].value,
                led,
            )),
            record_v(
                prefix.push(entries.drop_first()[i].name),
                entries.drop_first()[i].name,
                entries.drop_first()[i].value,
                led,
            ),
        ) by {
            assert(entries.drop_first()[i] == entries[i + 1]);
        }
        lemma_records_sel_noop(entries.drop_first(), prefix, led, d, want_table);
        let rs = records_sel(entries, prefix, led, want_table);
        assert forall|k: int| 0 <= k < rs.len() implies noop_outcome(
            d(#[trigger] rs[k]),
            rs[k],
        ) by {
            if in_pass(entries[0].value, want_table) {
                if k > 0 {
                    assert(rs[k] == records_sel(entries.drop_first(), prefix, led, want_table)[
                        k - 1
                    ]);
                }
            } else {
                assert(rs[k] == records_sel(entries.drop_first(), prefix, led, want_table)[k]);
            }
        }
    }
}

/// One full run over a table, driven by a stable decision, leaves every
/// declaration in a state the same decision no longer changes.
proof fn lemma_table_idempotent(
    cur: Seq<DepEntryV>,
    prefix: Seq<Seq<char>>,
    led: LedgerImage,
    d: spec_fn(InputV) -> OutcomeV,
    outs1: Seq<OutcomeV>,
)
    requires
        unique_names(cur),
        forall|i: int|
            0 <= i < cur.len() && !((#[trigger] cur[i]).value is Other) ==> unaliased_decl(
                cur[i].name,
                cur[i].value,
            ),
        decision_stable(d),
        outs1.len() >= records_deps(cur, prefix, led).len(),
        forall|k: int|
            0 <= k < records_deps(cur, prefix, led).len() ==> outs1[k] == d(
                #[trigger] records_deps(cur, prefix, led)[k],
            ),
    ensures
        ({
            let r1 = apply_deps(cur, prefix, led, outs1, false);
            &&& r1.entries.len() == cur.len()
            &&& forall|i: int|
                0 <= i < cur.len() ==> (#[trigger] r1.entries[i]).name == cur[i].name
            &&& forall|i: int|
                0 <= i < cur.len() && (#[trigger] cur[i]).value is Other ==> r1.entries[i]
                    == cur[i]
            &&& forall|i: int|
                0 <= i < cur.len() && !((#[trigger] cur[i]).value is Other) ==> noop_outcome(
                    d(record_v(prefix.push(cur[i].name), cur[i].name, r1.entries[i].value, r1.led)),
                    record_v(prefix.push(cur[i].name), cur[i].name, r1.entries[i].value, r1.led),
                )
        }),
{
    let rsa = records_sel(cur, prefix, led, true);
    let rsb = records_sel(cur, prefix, led, false);
    let r1 = apply_deps(cur, prefix, led, outs1, false);
    let p1 = apply_sel(cur, prefix, led, outs1, true, false);
    let outs1b = outs1.skip(p1.used as int);
    let p2 = apply_sel(cur, prefix, p1.led, outs1b, false, false);
    assert forall|k: int| 0 <= k < rsa.len() implies outs1[k] == d(#[trigger] rsa[k]) by {
        assert(records_deps(cur, prefix, led)[k] == rsa[k]);
    }
    lemma_idempotent_pass(cur, prefix, led, d, outs1, true);
    lemma_sel_footprint(cur, prefix, led, outs1, true, false);
    lemma_apply_sel_shape(cur, prefix, led, outs1, true, false);
    lemma_apply_sel_used(cur, prefix, led, outs1, true, false);
    assert(p1.used == rsa.len());
    // the string declarations' paths are untouched by the first pass
    assert forall|i: int|
        0 <= i < cur.len() && in_pass((#[trigger] cur[i]).value, false) implies led_agree(
        led,
        p1.led,
        prefix.push(cur[i].name),
    ) by {
        assert(!is_pass_path(cur, prefix, prefix.push(cur[i].name), true)) by {
            if is_pass_path(cur, prefix, prefix.push(cur[i].name), true) {
                let j = choose|j: int|
                    0 <= j < cur.len() && in_pass((#[trigger] cur[j]).value, true) && prefix.push(
                        cur[i].name,
                    ) == prefix.push(cur[j].name);
                assert(prefix.push(cur[i].name).last() == cur[i].name);
                assert(prefix.push(cur[j].name).last() == cur[j].name);
                if i < j {
                } else if j < i {
                }
            }
        }
    }
    lemma_records_sel_agree(cur, prefix, led, p1.led, false);
    assert(records_sel(cur, prefix, p1.led, false) == rsb);
    assert forall|k: int|
        0 <= k < records_sel(cur, prefix, p1.led, false).len() implies outs1b[k] == d(
        #[trigger] records_sel(cur, prefix, p1.led, false)[k],
    ) by {
        assert(records_sel(cur, prefix, p1.led, false)[k] == rsb[k]);
        assert(records_deps(cur, prefix, led)[rsa.len() + k] == rsb[k]);
        assert(outs1b[k] == outs1[rsa.len() + k]);
    }
    lemma_idempotent_pass(cur, prefix, p1.led, d, outs1b, false);
    lemma_sel_footprint(cur, prefix, p1.led, outs1b, false, false);
    lemma_apply_sel_shape(cur, prefix, p1.led, outs1b, false, false);
    // after both passes, every declaration's record draws a no-op
    assert forall|i: int|
        0 <= i < cur.len() && !((#[trigger] cur[i]).value is Other) implies noop_outcome(
        d(record_v(prefix.push(cur[i].name), cur[i].name, r1.entries[i].value, r1.led)),
        record_v(prefix.push(cur[i].name), cur[i].name, r1.entries[i].value, r1.led),
    ) by {
        if cur[i].value is TableForm {
            assert(r1.entries[i] == p1.entries[i]);
            assert(!is_pass_path(cur, prefix, prefix.push(cur[i].name), false)) by {
                if is_pass_path(cur, prefix, prefix.push(cur[i].name), false) {
                    let j = choose|j: int|
                        0 <= j < cur.len() && in_pass((#[trigger] cur[j]).value, false)
                            && prefix.push(cur[i].name) == prefix.push(cur[j].name);
                    assert(prefix.push(cur[i].name).last() == cur[i].name);
                    assert(prefix.push(cur[j].name).last() == cur[j].name);
                    if i < j {
                    } else if j < i {
                    }
                }
            }
            assert(led_agree(p1.led, p2.led, prefix.push(cur[i].name)));
            assert(record_v(prefix.push(cur[i].name), cur[i].name, p1.entries[i].value, r1.led)
                == record_v(prefix.push(cur[i].name), cur[i].name, p1.entries[i].value, p1.led));
        } else {
            assert(r1.entries[i] == p2.entries[i]);
            assert(cur[i].value is VersionStr);
        }
    }
    assert forall|i: int|
        0 <= i < cur.len() implies (#[trigger] r1.entries[i]).name == cur[i].name by {
        if cur[i].value is TableForm {
            assert(r1.entries[i] == p1.entries[i]);
        } else {
            assert(r1.entries[i] == p2.entries[i]);
        }
    }
    assert forall|i: int|
        0 <= i < cur.len() && (#[trigger] cur[i]).value is Other implies r1.entries[i]
        == cur[i] by {
        assert(r1.entries[i] == p2.entries[i]);
        assert(p1.entries[i] == cur[i]);
        assert(p2.entries[i] == cur[i]);
    }
}

/// Idempotence, whole table: run a decision that reads only name,
/// package and original source over a table; feeding the same decision
/// the records of the result changes nothing — same table, same ledger,
/// no edits.
pub proof fn law_table_patch_idempotent(
    cur: Seq<DepEntryV>,
    prefix: Seq<Seq<char>>,
    led: LedgerImage,
    d: spec_fn(InputV) -> OutcomeV,
)
    requires
        unique_names(cur),
        forall|i: int|
            0 <= i < cur.len() && !((#[trigger] cur[i]).value is Other) ==> unaliased_decl(
                cur[i].name,
                cur[i].value,
            ),
        decision_stable(d),
    ensures
        ({
            let outs1 = records_deps(cur, prefix, led).map_values(d);
            let r1 = apply_deps(cur, prefix, led, outs1, false);
            let outs2 = records_deps(r1.entries, prefix, r1.led).map_values(d);
            apply_deps(r1.entries, prefix, r1.led, outs2, false) == (PassV {
                entries: r1.entries,
                led: r1.led,
                edits: Seq::<crate::engine::EditV>::empty(),
                used: records_deps(r1.entries, prefix, r1.led).len() as nat,
            })
        }),
{
    let outs1 = records_deps(cur, prefix, led).map_values(d);
    let r1 = apply_deps(cur, prefix, led, outs1, false);
    lemma_table_idempotent(cur, prefix, led, d, outs1);
    let rs2 = records_deps(r1.entries, prefix, r1.led);
    let outs2 = rs2.map_values(d);
    assert forall|i: int|
        0 <= i < r1.entries.len() && !((#[trigger] r1.entries[i]).value is Other)
            implies noop_outcome(
        d(record_v(prefix.push(r1.entries[i].name), r1.entries[i].name, r1.entries[i].value, r1.led)),
        record_v(prefix.push(r1.entries[i].name), r1.entries[i].name, r1.entries[i].value, r1.led),
    ) by {
        assert(r1.entries[i].name == cur[i].name);
        assert(!(cur[i].value is Other));
    }
    lemma_records_sel_noop(r1.entries, prefix, r1.led, d, true);
    lemma_records_sel_noop(r1.entries, prefix, r1.led, d, false);
    let rs2a = records_sel(r1.entries, prefix, r1.led, true);
    let rs2b = records_sel(r1.entries, prefix, r1.led, false);
    assert forall|k: int| 0 <= k < rs2.len() implies noop_outcome(
        outs2[k],
        #[trigger] rs2[k],
    ) by {
        assert(outs2[k] == d(rs2[k]));
        if k < rs2a.len() {
            assert(rs2[k] == rs2a[k]);
        } else {
            assert(rs2[k] == rs2b[k - rs2a.len()]);
        }
    }
    lemma_noop_deps(r1.entries, prefix, r1.led, outs2);
}

/// Transporting restorability along ledger images that agree on the
/// table's own declaration paths.
proof fn lemma_entries_restorable_agree(
    cur: Seq<DepEntryV>,
    base: Seq<DepEntryV>,
    prefix: Seq<Seq<char>>,
    l1: LedgerImage,
    l2: LedgerImage,
)
    requires
        entries_restorable(cur, base, prefix, l1),
        forall|i: int|
            0 <= i < cur.len() && !((#[trigger] cur[i]).value is Other) ==> led_agree(
                l1,
                l2,
                prefix.push(cur[i].name),
            ),
    ensures
        entries_restorable(cur, base, prefix, l2),
{
    assert forall|i: int|
        0 <= i < cur.len() && !((#[trigger] cur[i]).value is Other) implies restorable_decl(
        cur[i].value,
        l2,
        prefix.push(cur[i].name),
        table_form_v(base[i].value).source,
    ) by {
        assert(led_agree(l1, l2, prefix.push(cur[i].name)));
    }
}

/// The five key segments the engine builds paths from are pairwise
/// distinct: their lengths differ.
proof fn lemma_segment_literals()
    ensures
        "dependencies"@.len() == 12,
        "dev-dependencies"@.len() == 16,
        "build-dependencies"@.len() == 18,
        "target"@.len() == 6,
        "workspace"@.len() == 9,
{
    reveal_strlit("dependencies");
    reveal_strlit("dev-dependencies");
    reveal_strlit("build-dependencies");
    reveal_strlit("target");
    reveal_strlit("workspace");
}

/// Restorability of one optional dependency table.
pub open spec fn opt_restorable(
    cur: Option<Seq<DepEntryV>>,
    base: Option<Seq<DepEntryV>>,
    prefix: Seq<Seq<char>>,
    led: LedgerImage,
) -> bool {
    match (cur, base) {
        (Some(c), Some(b)) => entries_restorable(c, b, prefix, led),
        (None, None) => true,
        _ => false,
    }
}

/// Well-formedness of one optional base table.
pub open spec fn opt_wf(base: Option<Seq<DepEntryV>>) -> bool {
    match base {
        Some(b) => base_wf(b),
        None => true,
    }
}

/// Whether `p` is the key path of a declaration of one optional table.
pub open spec fn opt_decl_path(
    base: Option<Seq<DepEntryV>>,
    prefix: Seq<Seq<char>>,
    p: Seq<Seq<char>>,
) -> bool {
    match base {
        Some(b) => is_decl_path(b, prefix, p),
        None => false,
    }
}

/// Restorability of the three tables of one section.
pub open spec fn kind_restorable(
    cur: KindTablesV,
    base: KindTablesV,
    prefix: Seq<Seq<char>>,
    led: LedgerImage,
) -> bool {
    &&& opt_restorable(cur.dependencies, base.dependencies, prefix.push("dependencies"@), led)
    &&& opt_restorable(
        cur.dev_dependencies,
        base.dev_dependencies,
        prefix.push("dev-dependencies"@),
        led,
    )
    &&& opt_restorable(
        cur.build_dependencies,
        base.build_dependencies,
        prefix.push("build-dependencies"@),
        led,
    )
}

/// Well-formedness of a section's three base tables.
pub open spec fn kind_wf(base: KindTablesV) -> bool {
    &&& opt_wf(base.dependencies)
    &&& opt_wf(base.dev_dependencies)
    &&& opt_wf(base.build_dependencies)
}

/// Whether `p` is the key path of a declaration of one section's tables.
pub open spec fn kind_decl_path(
    base: KindTablesV,
    prefix: Seq<Seq<char>>,
    p: Seq<Seq<char>>,
) -> bool {
    ||| opt_decl_path(base.dependencies, prefix.push("dependencies"@), p)
    ||| opt_decl_path(base.dev_dependencies, prefix.push("dev-dependencies"@), p)
    ||| opt_decl_path(base.build_dependencies, prefix.push("build-dependencies"@), p)
}

/// A declaration path pins down its table prefix.
proof fn lemma_decl_path_prefix(entries: Seq<DepEntryV>, prefix: Seq<Seq<char>>, p: Seq<Seq<char>>)
    requires
        is_decl_path(entries, prefix, p),
    ensures
        p.len() == prefix.len() + 1,
        p.drop_last() == prefix,
{
    let i = choose|i: int|
        0 <= i < entries.len() && p == prefix.push((#[trigger] entries[i]).name);
    assert(p.drop_last() =~= prefix);
}

/// One whole run over a section's three tables preserves restorability
/// and touches no ledger path outside the section's declarations.
proof fn lemma_kind_preserves(
    cur: KindTablesV,
    base: KindTablesV,
    prefix: Seq<Seq<char>>,
    led: LedgerImage,
    outs: Seq<OutcomeV>,
    fi: bool,
)
    requires
        kind_wf(base),
        kind_restorable(cur, base, prefix, led),
    ensures
        ({
            let r = apply_kind_tables(cur, prefix, led, outs, fi);
            &&& kind_restorable(r.0, base, prefix, r.1)
            &&& forall|p: Seq<Seq<char>>|
                !kind_decl_path(base, prefix, p) ==> #[trigger] led_agree(led, r.1, p)
        }),
{
    lemma_segment_literals();
    let pd = prefix.push("dependencies"@);
    let pv = prefix.push("dev-dependencies"@);
    let pb = prefix.push("build-dependencies"@);
    let d = apply_one_kind(cur.dependencies, prefix, "dependencies"@, led, outs, fi);
    let v = apply_one_kind(
        cur.dev_dependencies,
        prefix,
        "dev-dependencies"@,
        d.1,
        outs.skip(d.3 as int),
        fi,
    );
    let b = apply_one_kind(
        cur.build_dependencies,
        prefix,
        "build-dependencies"@,
        v.1,
        outs.skip(d.3 + v.3 as int),
        fi,
    );
    // first table
    match (cur.dependencies, base.dependencies) {
        (Some(c), Some(bs)) => {
            law_table_patch_preserves_restorable(c, bs, pd, led, outs, fi);
        },
        _ => {},
    }
    assert forall|p: Seq<Seq<char>>|
        !opt_decl_path(base.dependencies, pd, p) implies #[trigger] led_agree(led, d.1, p) by {
        match (cur.dependencies, base.dependencies) {
            (Some(c), Some(bs)) => {},
            _ => {},
        }
    }
    // second table: its paths were untouched by the first
    match (cur.dev_dependencies, base.dev_dependencies) {
        (Some(c), Some(bs)) => {
            assert forall|i: int|
                0 <= i < c.len() && !((#[trigger] c[i]).value is Other) implies led_agree(
                led,
                d.1,
                pv.push(c[i].name),
            ) by {
                assert(!opt_decl_path(base.dependencies, pd, pv.push(c[i].name))) by {
                    match base.dependencies {
                        Some(bd) => {
                            if is_decl_path(bd, pd, pv.push(c[i].name)) {
                                lemma_decl_path_prefix(bd, pd, pv.push(c[i].name));
                                assert(pv.push(c[i].name).drop_last() =~= pv);
                                assert(pd.last() == "dependencies"@);
                                assert(pv.last() == "dev-dependencies"@);
                            }
                        },
                        None => {},
                    }
                }
            }
            lemma_entries_restorable_agree(c, bs, pv, led, d.1);
            law_table_patch_preserves_restorable(c, bs, pv, d.1, outs.skip(d.3 as int), fi);
        },
        _ => {},
    }
    assert forall|p: Seq<Seq<char>>|
        !opt_decl_path(base.dev_dependencies, pv, p) implies #[trigger] led_agree(d.1, v.1, p) by {}
    // third table: untouched by the first two
    match (cur.build_dependencies, base.build_dependencies) {
        (Some(c), Some(bs)) => {
            assert forall|i: int|
                0 <= i < c.len() && !((#[trigger] c[i]).value is Other) implies led_agree(
                led,
                v.1,
                pb.push(c[i].name),
            ) by {
                let q = pb.push(c[i].name);
                assert(!opt_decl_path(base.dependencies, pd, q)) by {
                    match base.dependencies {
                        Some(bd) => {
                            if is_decl_path(bd, pd, q) {
                                lemma_decl_path_prefix(bd, pd, q);
                                assert(q.drop_last() =~= pb);
                                assert(pd.last() == "dependencies"@);
                                assert(pb.last() == "build-dependencies"@);
                            }
                        },
                        None => {},
                    }
                }
                assert(!opt_decl_path(base.dev_dependencies, pv, q)) by {
                    match base.dev_dependencies {
                        Some(bd) => {
                            if is_decl_path(bd, pv, q) {
                                lemma_decl_path_prefix(bd, pv, q);
                                assert(q.drop_last() =~= pb);
                                assert(pv.last() == "dev-dependencies"@);
                                assert(pb.last() == "build-dependencies"@);
                            }
                        },
                        None => {},
                    }
                }
                assert(led_agree(led, d.1, q));
                assert(led_agree(d.1, v.1, q));
            }
            lemma_entries_restorable_agree(c, bs, pb, led, v.1);
            law_table_patch_preserves_restorable(c, bs, pb, v.1, outs.skip(d.3 + v.3 as int), fi);
        },
        _ => {},
    }
    assert forall|p: Seq<Seq<char>>|
        !opt_decl_path(base.build_dependencies, pb, p) implies #[trigger] led_agree(
        v.1,
        b.1,
        p,
    ) by {}
    // assemble: transports for the first two tables, and the footprint
    let r = apply_kind_tables(cur, prefix, led, outs, fi);
    assert(r.1 == b.1);
    match (cur.dependencies, base.dependencies) {
        (Some(c), Some(bs)) => {
            let c1 = apply_deps(c, pd, led, outs, fi).entries;
            assert(r.0.dependencies == Some(c1));
            assert forall|i: int|
                0 <= i < c1.len() && !((#[trigger] c1[i]).value is Other) implies led_agree(
                d.1,
                b.1,
                pd.push(c1[i].name),
            ) by {
                let q = pd.push(c1[i].name);
                assert(!opt_decl_path(base.dev_dependencies, pv, q)) by {
                    match base.dev_dependencies {
                        Some(bd) => {
                            if is_decl_path(bd, pv, q) {
                                lemma_decl_path_prefix(bd, pv, q);
                                assert(q.drop_last() =~= pd);
                                assert(pd.last() == "dependencies"@);
                                assert(pv.last() == "dev-dependencies"@);
                            }
                        },
                        None => {},
                    }
                }
                assert(!opt_decl_path(base.build_dependencies, pb, q)) by {
                    match base.build_dependencies {
                        Some(bd) => {
                            if is_decl_path(bd, pb, q) {
                                lemma_decl_path_prefix(bd, pb, q);
                                assert(q.drop_last() =~= pd);
                                assert(pd.last() == "dependencies"@);
                                assert(pb.last() == "build-dependencies"@);
                            }
                        },
                        None => {},
                    }
                }
                assert(led_agree(d.1, v.1, q));
                assert(led_agree(v.1, b.1, q));
            }
            lemma_entries_restorable_agree(c1, bs, pd, d.1, b.1);
        },
        _ => {},
    }
    match (cur.dev_dependencies, base.dev_dependencies) {
        (Some(c), Some(bs)) => {
            let c1 = apply_deps(c, pv, d.1, outs.skip(d.3 as int), fi).entries;
            assert(r.0.dev_dependencies == Some(c1));
            assert forall|i: int|
                0 <= i < c1.len() && !((#[trigger] c1[i]).value is Other) implies led_agree(
                v.1,
                b.1,
                pv.push(c1[i].name),
            ) by {
                let q = pv.push(c1[i].name);
                assert(!opt_decl_path(base.build_dependencies, pb, q)) by {
                    match base.build_dependencies {
                        Some(bd) => {
                            if is_decl_path(bd, pb, q) {
                                lemma_decl_path_prefix(bd, pb, q);
                                assert(q.drop_last() =~= pv);
                                assert(pv.last() == "dev-dependencies"@);
                                assert(pb.last() == "build-dependencies"@);
                            }
                        },
                        None => {},
                    }
                }
                assert(led_agree(v.1, b.1, q));
            }
            lemma_entries_restorable_agree(c1, bs, pv, v.1, b.1);
        },
        _ => {},
    }
    assert forall|p: Seq<Seq<char>>|
        !kind_decl_path(base, prefix, p) implies #[trigger] led_agree(led, r.1, p) by {
        assert(led_agree(led, d.1, p));
        assert(led_agree(d.1, v.1, p));
        assert(led_agree(v.1, b.1, p));
    }
}

/// A section-table key path pins down its section prefix and names one
/// of the three table keys.
proof fn lemma_kind_path_shape(kt: KindTablesV, pfx: Seq<Seq<char>>, q: Seq<Seq<char>>)
    requires
        kind_decl_path(kt, pfx, q),
    ensures
        q.len() == pfx.len() + 2,
        q.drop_last().drop_last() == pfx,
        q[pfx.len() as int] == "dependencies"@ || q[pfx.len() as int] == "dev-dependencies"@ || q[
            pfx.len() as int
        ] == "build-dependencies"@,
{
    if opt_decl_path(kt.dependencies, pfx.push("dependencies"@), q) {
        match kt.dependencies {
            Some(es) => {
                lemma_decl_path_prefix(es, pfx.push("dependencies"@), q);
                assert(q.drop_last().drop_last() =~= pfx);
                assert(q[pfx.len() as int] == q.drop_last()[pfx.len() as int]);
            },
            None => {},
        }
    } else if opt_decl_path(kt.dev_dependencies, pfx.push("dev-dependencies"@), q) {
        match kt.dev_dependencies {
            Some(es) => {
                lemma_decl_path_prefix(es, pfx.push("dev-dependencies"@), q);
                assert(q.drop_last().drop_last() =~= pfx);
                assert(q[pfx.len() as int] == q.drop_last()[pfx.len() as int]);
            },
            None => {},
        }
    } else {
        match kt.build_dependencies {
            Some(es) => {
                lemma_decl_path_prefix(es, pfx.push("build-dependencies"@), q);
                assert(q.drop_last().drop_last() =~= pfx);
                assert(q[pfx.len() as int] == q.drop_last()[pfx.len() as int]);
            },
            None => {},
        }
    }
}

/// Transporting a section's restorability along ledger images that agree
/// on the section's declaration paths.
proof fn lemma_kind_restorable_agree(
    cur: KindTablesV,
    base: KindTablesV,
    prefix: Seq<Seq<char>>,
    l1: LedgerImage,
    l2: LedgerImage,
)
    requires
        kind_restorable(cur, base, prefix, l1),
        forall|p: Seq<Seq<char>>|
            kind_decl_path(base, prefix, p) ==> #[trigger] led_agree(l1, l2, p),
    ensures
        kind_restorable(cur, base, prefix, l2),
{
    match (cur.dependencies, base.dependencies) {
        (Some(c), Some(b)) => {
            assert forall|i: int|
                0 <= i < c.len() && !((#[trigger] c[i]).value is Other) implies led_agree(
                l1,
                l2,
                prefix.push("dependencies"@).push(c[i].name),
            ) by {
                assert(c[i].name == b[i].name);
                assert(is_decl_path(b, prefix.push("dependencies"@), prefix.push(
                    "dependencies"@,
                ).push(b[i].name)));
            }
            lemma_entries_restorable_agree(c, b, prefix.push("dependencies"@), l1, l2);
        },
        _ => {},
    }
    match (cur.dev_dependencies, base.dev_dependencies) {
        (Some(c), Some(b)) => {
            assert forall|i: int|
                0 <= i < c.len() && !((#[trigger] c[i]).value is Other) implies led_agree(
                l1,
                l2,
                prefix.push("dev-dependencies"@).push(c[i].name),
            ) by {
                assert(c[i].name == b[i].name);
                assert(is_decl_path(b, prefix.push("dev-dependencies"@), prefix.push(
                    "dev-dependencies"@,
                ).push(b[i].name)));
            }
            lemma_entries_restorable_agree(c, b, prefix.push("dev-dependencies"@), l1, l2);
        },
        _ => {},
    }
    match (cur.build_dependencies, base.build_dependencies) {
        (Some(c), Some(b)) => {
            assert forall|i: int|
                0 <= i < c.len() && !((#[trigger] c[i]).value is Other) implies led_agree(
                l1,
                l2,
                prefix.push("build-dependencies"@).push(c[i].name),
            ) by {
                assert(c[i].name == b[i].name);
                assert(is_decl_path(b, prefix.push("build-dependencies"@), prefix.push(
                    "build-dependencies"@,
                ).push(b[i].name)));
            }
            lemma_entries_restorable_agree(c, b, prefix.push("build-dependencies"@), l1, l2);
        },
        _ => {},
    }
}

/// Restorability of the platform-conditional targets.
pub open spec fn targets_restorable(
    cur: Seq<TargetBlockV>,
    base: Seq<TargetBlockV>,
    prefix: Seq<Seq<char>>,
    led: LedgerImage,
) -> bool {
    &&& cur.len() == base.len()
    &&& forall|k: int| 0 <= k < cur.len() ==> (#[trigger] cur[k]).cfg == base[k].cfg
    &&& forall|k: int|
        0 <= k < cur.len() ==> kind_restorable(
            (#[trigger] cur[k]).tables,
            base[k].tables,
            prefix.push("target"@).push(base[k].cfg),
            led,
        )
}

/// Well-formedness of the base targets: unique configurations, each with
/// well-formed tables.
pub open spec fn targets_wf(base: Seq<TargetBlockV>) -> bool {
    &&& forall|k: int| 0 <= k < base.len() ==> kind_wf((#[trigger] base[k]).tables)
    &&& forall|i: int, j: int|
        0 <= i < j < base.len() ==> (#[trigger] base[i]).cfg != (#[trigger] base[j]).cfg
}

/// Whether `p` is the key path of a declaration under one of the targets.
pub open spec fn targets_decl_path(
    base: Seq<TargetBlockV>,
    prefix: Seq<Seq<char>>,
    p: Seq<Seq<char>>,
) -> bool {
    exists|k: int|
        0 <= k < base.len() && kind_decl_path(
            (#[trigger] base[k]).tables,
            prefix.push("target"@).push(base[k].cfg),
            p,
        )
}

/// One whole run over the targets preserves restorability and touches no
/// ledger path outside the targets' declarations.
proof fn lemma_targets_preserves(
    cur: Seq<TargetBlockV>,
    base: Seq<TargetBlockV>,
    prefix: Seq<Seq<char>>,
    led: LedgerImage,
    outs: Seq<OutcomeV>,
    fi: bool,
)
    requires
        targets_wf(base),
        targets_restorable(cur, base, prefix, led),
    ensures
        ({
            let r = apply_targets(cur, prefix, led, outs, fi);
            &&& targets_restorable(r.0, base, prefix, r.1)
            &&& forall|p: Seq<Seq<char>>|
                !targets_decl_path(base, prefix, p) ==> #[trigger] led_agree(led, r.1, p)
        }),
    decreases cur.len(),
{
    let r = apply_targets(cur, prefix, led, outs, fi);
    if cur.len() == 0 {
        assert forall|p: Seq<Seq<char>>|
            !targets_decl_path(base, prefix, p) implies #[trigger] led_agree(led, r.1, p) by {}
    } else {
        let p20 = prefix.push("target"@).push(base[0].cfg);
        assert(cur[0].cfg == base[0].cfg);
        let r0 = apply_kind_tables(cur[0].tables, p20, led, outs, fi);
        lemma_kind_preserves(cur[0].tables, base[0].tables, p20, led, outs, fi);
        // blocks address disjoint paths: a path pins down its block's
        // configuration
        assert(targets_wf(base.drop_first())) by {
            assert forall|k: int|
                0 <= k < base.drop_first().len() implies kind_wf(
                (#[trigger] base.drop_first()[k]).tables,
            ) by {
                assert(base.drop_first()[k] == base[k + 1]);
            }
            assert forall|i: int, j: int|
                0 <= i < j < base.drop_first().len() implies (#[trigger] base.drop_first()[
                i
            ]).cfg != (#[trigger] base.drop_first()[j]).cfg by {
                assert(base.drop_first()[i] == base[i + 1]);
                assert(base.drop_first()[j] == base[j + 1]);
            }
        }
        assert(targets_restorable(cur.drop_first(), base.drop_first(), prefix, r0.1)) by {
            assert forall|k: int|
                0 <= k < cur.drop_first().len() implies (#[trigger] cur.drop_first()[k]).cfg
                == base.drop_first()[k].cfg && kind_restorable(
                cur.drop_first()[k].tables,
                base.drop_first()[k].tables,
                prefix.push("target"@).push(base.drop_first()[k].cfg),
                r0.1,
            ) by {
                assert(cur.drop_first()[k] == cur[k + 1]);
                assert(base.drop_first()[k] == base[k + 1]);
                let p2k = prefix.push("target"@).push(base[k + 1].cfg);
                assert forall|p: Seq<Seq<char>>|
                    kind_decl_path(base[k + 1].tables, p2k, p) implies #[trigger] led_agree(
                    led,
                    r0.1,
                    p,
                ) by {
                    assert(!kind_decl_path(base[0].tables, p20, p)) by {
                        if kind_decl_path(base[0].tables, p20, p) {
                            lemma_kind_path_shape(base[0].tables, p20, p);
                            lemma_kind_path_shape(base[k + 1].tables, p2k, p);
                            assert(p20 == p2k);
                            assert(p20.last() == base[0].cfg);
                            assert(p2k.last() == base[k + 1].cfg);
                        }
                    }
                }
                lemma_kind_restorable_agree(
                    cur[k + 1].tables,
                    base[k + 1].tables,
                    p2k,
                    led,
                    r0.1,
                );
            }
        }
        lemma_targets_preserves(
            cur.drop_first(),
            base.drop_first(),
            prefix,
            r0.1,
            outs.skip(r0.3 as int),
            fi,
        );
        let rrest = apply_targets(cur.drop_first(), prefix, r0.1, outs.skip(r0.3 as int), fi);
        assert(r.0 == seq![TargetBlockV { cfg: cur[0].cfg, tables: r0.0 }] + rrest.0);
        assert(r.1 == rrest.1);
        // the head block's restorability survives the rest
        assert forall|p: Seq<Seq<char>>|
            kind_decl_path(base[0].tables, p20, p) implies #[trigger] led_agree(
            r0.1,
            rrest.1,
            p,
        ) by {
            assert(!targets_decl_path(base.drop_first(), prefix, p)) by {
                if targets_decl_path(base.drop_first(), prefix, p) {
                    let k = choose|k: int|
                        0 <= k < base.drop_first().len() && kind_decl_path(
                            (#[trigger] base.drop_first()[k]).tables,
                            prefix.push("target"@).push(base.drop_first()[k].cfg),
                            p,
                        );
                    assert(base.drop_first()[k] == base[k + 1]);
                    let p2k = prefix.push("target"@).push(base[k + 1].cfg);
                    lemma_kind_path_shape(base[0].tables, p20, p);
                    lemma_kind_path_shape(base[k + 1].tables, p2k, p);
                    assert(p20 == p2k);
                    assert(p20.last() == base[0].cfg);
                    assert(p2k.last() == base[k + 1].cfg);
                }
            }
        }
        assert(targets_restorable(r.0, base, prefix, r.1)) by {
            assert forall|k: int|
                0 <= k < r.0.len() implies (#[trigger] r.0[k]).cfg == base[k].cfg
                && kind_restorable(
                r.0[k].tables,
                base[k].tables,
                prefix.push("target"@).push(base[k].cfg),
                r.1,
            ) by {
                if k == 0 {
                    assert(r.0[0].tables == r0.0);
                    lemma_kind_restorable_agree(r0.0, base[0].tables, p20, r0.1, rrest.1);
                } else {
                    assert(r.0[k] == rrest.0[k - 1]);
                    assert(base.drop_first()[k - 1] == base[k]);
                }
            }
        }
        assert forall|p: Seq<Seq<char>>|
            !targets_decl_path(base, prefix, p) implies #[trigger] led_agree(led, r.1, p) by {
            assert(!kind_decl_path(base[0].tables, p20, p)) by {
                if kind_decl_path(base[0].tables, p20, p) {
                    assert(targets_decl_path(base, prefix, p));
                }
            }
            assert(led_agree(led, r0.1, p));
            assert(!targets_decl_path(base.drop_first(), prefix, p)) by {
                if targets_decl_path(base.drop_first(), prefix, p) {
                    let k = choose|k: int|
                        0 <= k < base.drop_first().len() && kind_decl_path(
                            (#[trigger] base.drop_first()[k]).tables,
                            prefix.push("target"@).push(base.drop_first()[k].cfg),
                            p,
                        );
                    assert(base.drop_first()[k] == base[k + 1]);
                }
            }
            assert(led_agree(r0.1, r.1, p));
        }
    }
}

/// Restorability of one whole section.
pub open spec fn sections_restorable(
    cur: SectionsV,
    base: SectionsV,
    prefix: Seq<Seq<char>>,
    led: LedgerImage,
) -> bool {
    &&& kind_restorable(cur.tables, base.tables, prefix, led)
    &&& targets_restorable(cur.targets, base.targets, prefix, led)
}

/// Well-formedness of one base section.
pub open spec fn sections_wf(base: SectionsV) -> bool {
    &&& kind_wf(base.tables)
    &&& targets_wf(base.targets)
}

/// Whether `p` is the key path of a declaration of one section.
pub open spec fn sections_decl_path(
    base: SectionsV,
    prefix: Seq<Seq<char>>,
    p: Seq<Seq<char>>,
) -> bool {
    ||| kind_decl_path(base.tables, prefix, p)
    ||| targets_decl_path(base.targets, prefix, p)
}

/// A target key path pins down its length.
proof fn lemma_targets_path_shape(
    base: Seq<TargetBlockV>,
    prefix: Seq<Seq<char>>,
    p: Seq<Seq<char>>,
)
    requires
        targets_decl_path(base, prefix, p),
    ensures
        p.len() == prefix.len() + 4,
{
    let k = choose|k: int|
        0 <= k < base.len() && kind_decl_path(
            (#[trigger] base[k]).tables,
            prefix.push("target"@).push(base[k].cfg),
            p,
        );
    lemma_kind_path_shape(base[k].tables, prefix.push("target"@).push(base[k].cfg), p);
}

/// One whole run over a section preserves restorability and touches no
/// ledger path outside the section's declarations.
proof fn lemma_sections_preserves(
    cur: SectionsV,
    base: SectionsV,
    prefix: Seq<Seq<char>>,
    led: LedgerImage,
    outs: Seq<OutcomeV>,
    fi: bool,
)
    requires
        sections_wf(base),
        sections_restorable(cur, base, prefix, led),
    ensures
        ({
            let r = apply_sections(cur, prefix, led, outs, fi);
            &&& sections_restorable(r.0, base, prefix, r.1)
            &&& forall|p: Seq<Seq<char>>|
                !sections_decl_path(base, prefix, p) ==> #[trigger] led_agree(led, r.1, p)
        }),
{
    let r = apply_sections(cur, prefix, led, outs, fi);
    let k = apply_kind_tables(cur.tables, prefix, led, outs, fi);
    let t = apply_targets(cur.targets, prefix, k.1, outs.skip(k.3 as int), fi);
    lemma_kind_preserves(cur.tables, base.tables, prefix, led, outs, fi);
    // the root tables and the targets address paths of different depths
    assert(targets_restorable(cur.targets, base.targets, prefix, k.1)) by {
        assert forall|j: int|
            0 <= j < cur.targets.len() implies kind_restorable(
            (#[trigger] cur.targets[j]).tables,
            base.targets[j].tables,
            prefix.push("target"@).push(base.targets[j].cfg),
            k.1,
        ) by {
            let p2 = prefix.push("target"@).push(base.targets[j].cfg);
            assert forall|p: Seq<Seq<char>>|
                kind_decl_path(base.targets[j].tables, p2, p) implies #[trigger] led_agree(
                led,
                k.1,
                p,
            ) by {
                assert(!kind_decl_path(base.tables, prefix, p)) by {
                    if kind_decl_path(base.tables, prefix, p) {
                        lemma_kind_path_shape(base.tables, prefix, p);
                        lemma_kind_path_shape(base.targets[j].tables, p2, p);
                    }
                }
            }
            lemma_kind_restorable_agree(
                cur.targets[j].tables,
                base.targets[j].tables,
                p2,
                led,
                k.1,
            );
        }
    }
    lemma_targets_preserves(cur.targets, base.targets, prefix, k.1, outs.skip(k.3 as int), fi);
    assert(r.0.tables == k.0);
    assert(r.0.targets == t.0);
    assert(r.1 == t.1);
    // the root tables' restorability survives the targets
    assert forall|p: Seq<Seq<char>>|
        kind_decl_path(base.tables, prefix, p) implies #[trigger] led_agree(k.1, t.1, p) by {
        assert(!targets_decl_path(base.targets, prefix, p)) by {
            if targets_decl_path(base.targets, prefix, p) {
                lemma_targets_path_shape(base.targets, prefix, p);
                lemma_kind_path_shape(base.tables, prefix, p);
            }
        }
    }
    lemma_kind_restorable_agree(k.0, base.tables, prefix, k.1, t.1);
    assert forall|p: Seq<Seq<char>>|
        !sections_decl_path(base, prefix, p) implies #[trigger] led_agree(led, r.1, p) by {
        assert(led_agree(led, k.1, p));
        assert(led_agree(k.1, t.1, p));
    }
}

/// Transporting a whole section's restorability along ledger images
/// that agree on the section's declaration paths.
proof fn lemma_sections_restorable_agree(
    cur: SectionsV,
    base: SectionsV,
    prefix: Seq<Seq<char>>,
    l1: LedgerImage,
    l2: LedgerImage,
)
    requires
        sections_restorable(cur, base, prefix, l1),
        forall|p: Seq<Seq<char>>|
            sections_decl_path(base, prefix, p) ==> #[trigger] led_agree(l1, l2, p),
    ensures
        sections_restorable(cur, base, prefix, l2),
{
    assert forall|p: Seq<Seq<char>>|
        kind_decl_path(base.tables, prefix, p) implies #[trigger] led_agree(l1, l2, p) by {
        assert(sections_decl_path(base, prefix, p));
    }
    lemma_kind_restorable_agree(cur.tables, base.tables, prefix, l1, l2);
    assert forall|k: int|
        0 <= k < cur.targets.len() implies kind_restorable(
        (#[trigger] cur.targets[k]).tables,
        base.targets[k].tables,
        prefix.push("target"@).push(base.targets[k].cfg),
        l2,
    ) by {
        let p2 = prefix.push("target"@).push(base.targets[k].cfg);
        assert forall|p: Seq<Seq<char>>|
            kind_decl_path(base.targets[k].tables, p2, p) implies #[trigger] led_agree(
            l1,
            l2,
            p,
        ) by {
            assert(targets_decl_path(base.targets, prefix, p));
            assert(sections_decl_path(base, prefix, p));
        }
        lemma_kind_restorable_agree(cur.targets[k].tables, base.targets[k].tables, p2, l1, l2);
    }
}

/// A section key path starts with the section's prefix and continues
/// with one of the four section keys.
proof fn lemma_sections_path_first(base: SectionsV, prefix: Seq<Seq<char>>, p: Seq<Seq<char>>)
    requires
        sections_decl_path(base, prefix, p),
    ensures
        p.len() >= prefix.len() + 2,
        forall|i: int| 0 <= i < prefix.len() ==> p[i] == prefix[i],
        p[prefix.len() as int] == "dependencies"@ || p[prefix.len() as int]
            == "dev-dependencies"@ || p[prefix.len() as int] == "build-dependencies"@ || p[
            prefix.len() as int
        ] == "target"@,
{
    if kind_decl_path(base.tables, prefix, p) {
        lemma_kind_path_shape(base.tables, prefix, p);
        assert forall|i: int| 0 <= i < prefix.len() implies p[i] == prefix[i] by {
            assert(p[i] == p.drop_last().drop_last()[i]);
        }
    } else {
        let k = choose|k: int|
            0 <= k < base.targets.len() && kind_decl_path(
                (#[trigger] base.targets[k]).tables,
                prefix.push("target"@).push(base.targets[k].cfg),
                p,
            );
        let p2 = prefix.push("target"@).push(base.targets[k].cfg);
        lemma_kind_path_shape(base.targets[k].tables, p2, p);
        assert(p.drop_last().drop_last() == p2);
        assert forall|i: int| 0 <= i < prefix.len() implies p[i] == prefix[i] by {
            assert(p[i] == p.drop_last().drop_last()[i]);
            assert(p2[i] == prefix[i]);
        }
        assert(p[prefix.len() as int] == p2[prefix.len() as int]);
        assert(p2[prefix.len() as int] == "target"@);
    }
}

/// Restorability of one whole manifest against the manifest a ledger-free
/// history started from: same structure, and every declaration's backup
/// records its starting source exactly while the live source differs
/// from it.
pub open spec fn manifest_restorable(cur: ManifestV, base: ManifestV) -> bool {
    &&& !(cur.ledger is Malformed)
    &&& cur.has_package == base.has_package
    &&& sections_restorable(cur.root, base.root, seq![], initial_ledger_map(cur.ledger))
    &&& match (cur.workspace, base.workspace) {
        (Some(c), Some(b)) => sections_restorable(
            c,
            b,
            seq!["workspace"@],
            initial_ledger_map(cur.ledger),
        ),
        (None, None) => true,
        _ => false,
    }
}

/// Well-formedness of the base manifest, as a document gives it: unique
/// keys, unique target configurations, and no `package` renames, which
/// the round-trip guarantee leaves out.
pub open spec fn manifest_wf_for_laws(base: ManifestV) -> bool {
    &&& sections_wf(base.root)
    &&& match base.workspace {
        Some(b) => sections_wf(b),
        None => true,
    }
}

/// A manifest without a ledger is restorable to itself.
pub proof fn law_fresh_manifest_restorable(m: ManifestV)
    requires
        m.ledger is Absent,
    ensures
        manifest_restorable(m, m),
{
}

/// Round trip, whole manifest, first half: one full patch run — any
/// decision, any outcomes — keeps the manifest restorable to the
/// manifest its ledger-free history started from. Chained over any
/// number of runs, the ledger always records exactly the sources of
/// that first manifest, which is what a later revert restores.
pub proof fn law_patch_preserves_restorable(
    cur: ManifestV,
    base: ManifestV,
    outs: Seq<OutcomeV>,
    fi: bool,
)
    requires
        manifest_wf_for_laws(base),
        manifest_restorable(cur, base),
    ensures
        manifest_restorable(apply_manifest_v(cur, outs, fi).0, base),
{
    lemma_segment_literals();
    let led0 = initial_ledger_map(cur.ledger);
    let wsp: Seq<Seq<char>> = seq!["workspace"@];
    let r = apply_sections(cur.root, seq![], led0, outs, fi);
    lemma_sections_preserves(cur.root, base.root, seq![], led0, outs, fi);
    let ap = apply_manifest_v(cur, outs, fi);
    match (cur.workspace, base.workspace) {
        (Some(cw), Some(bw)) => {
            // a root path and a workspace path differ in their first
            // segment, so neither run touches the other's declarations
            assert forall|p: Seq<Seq<char>>|
                sections_decl_path(bw, wsp, p) implies !sections_decl_path(
                base.root,
                seq![],
                p,
            ) by {
                if sections_decl_path(base.root, seq![], p) {
                    lemma_sections_path_first(base.root, seq![], p);
                    lemma_sections_path_first(bw, wsp, p);
                    assert(p[0] == "workspace"@);
                }
            }
            assert forall|p: Seq<Seq<char>>|
                sections_decl_path(bw, wsp, p) implies #[trigger] led_agree(led0, r.1, p) by {}
            lemma_sections_restorable_agree(cw, bw, wsp, led0, r.1);
            lemma_sections_preserves(cw, bw, wsp, r.1, outs.skip(r.3 as int), fi);
            let q = apply_sections(cw, wsp, r.1, outs.skip(r.3 as int), fi);
            assert forall|p: Seq<Seq<char>>|
                sections_decl_path(base.root, seq![], p) implies #[trigger] led_agree(
                r.1,
                q.1,
                p,
            ) by {
                assert(!sections_decl_path(bw, wsp, p)) by {
                    if sections_decl_path(bw, wsp, p) {
                        lemma_sections_path_first(base.root, seq![], p);
                        lemma_sections_path_first(bw, wsp, p);
                        assert(p[0] == "workspace"@);
                    }
                }
            }
            lemma_sections_restorable_agree(r.0, base.root, seq![], r.1, q.1);
            assert(ap.0.root == r.0);
            assert(ap.0.workspace == Some(q.0));
            assert(initial_ledger_map(ap.0.ledger) == q.1) by {
                match cur.ledger {
                    LedgerV::Present(_) => {},
                    _ => {},
                }
            }
        },
        (None, None) => {
            assert(ap.0.root == r.0);
            assert(ap.0.workspace is None);
            assert(initial_ledger_map(ap.0.ledger) == r.1) by {
                match cur.ledger {
                    LedgerV::Present(_) => {},
                    _ => {},
                }
            }
        },
        _ => {},
    }
}

/// A table's records do not depend on ledger paths outside its own
/// declarations.
proof fn lemma_records_deps_agree(
    entries: Seq<DepEntryV>,
    prefix: Seq<Seq<char>>,
    l1: LedgerImage,
    l2: LedgerImage,
)
    requires
        forall|i: int|
            0 <= i < entries.len() && !((#[trigger] entries[i]).value is Other) ==> led_agree(
                l1,
                l2,
                prefix.push(entries[i].name),
            ),
    ensures
        records_deps(entries, prefix, l1) == records_deps(entries, prefix, l2),
{
    lemma_records_sel_agree(entries, prefix, l1, l2, true);
    lemma_records_sel_agree(entries, prefix, l1, l2, false);
}

/// Every declaration of a table carries its base source and no backup.
pub open spec fn entries_restored(
    cur: Seq<DepEntryV>,
    base: Seq<DepEntryV>,
    prefix: Seq<Seq<char>>,
    led: LedgerImage,
) -> bool {
    forall|i: int|
        0 <= i < base.len() && !((#[trigger] base[i]).value is Other) ==> table_form_v(
            cur[i].value,
        ).source == table_form_v(base[i].value).source && !led.dom().contains(
            prefix.push(base[i].name),
        )
}

/// Every declaration of a section's three tables carries its base source
/// and no backup.
pub open spec fn kind_restored(
    kt: KindTablesV,
    base: KindTablesV,
    prefix: Seq<Seq<char>>,
    led: LedgerImage,
) -> bool {
    &&& match (kt.dependencies, base.dependencies) {
        (Some(c), Some(b)) => entries_restored(c, b, prefix.push("dependencies"@), led),
        (None, None) => true,
        _ => false,
    }
    &&& match (kt.dev_dependencies, base.dev_dependencies) {
        (Some(c), Some(b)) => entries_restored(c, b, prefix.push("dev-dependencies"@), led),
        (None, None) => true,
        _ => false,
    }
    &&& match (kt.build_dependencies, base.build_dependencies) {
        (Some(c), Some(b)) => entries_restored(c, b, prefix.push("build-dependencies"@), led),
        (None, None) => true,
        _ => false,
    }
}

/// A revert-shaped run over a section's three tables restores every
/// declaration and leaves none of them with a backup.
proof fn lemma_kind_revert(
    cur: KindTablesV,
    base: KindTablesV,
    prefix: Seq<Seq<char>>,
    led: LedgerImage,
    outs: Seq<OutcomeV>,
)
    requires
        kind_wf(base),
        kind_restorable(cur, base, prefix, led),
        outs.len() >= records_kind_tables(cur, prefix, led).len(),
        forall|k: int|
            0 <= k < records_kind_tables(cur, prefix, led).len() ==> outs[k] == OutcomeV::Replace(
                (#[trigger] records_kind_tables(cur, prefix, led)[k]).original_source,
            ),
    ensures
        ({
            let r = apply_kind_tables(cur, prefix, led, outs, false);
            kind_restored(r.0, base, prefix, r.1)
        }),
{
    lemma_segment_literals();
    let pd = prefix.push("dependencies"@);
    let pv = prefix.push("dev-dependencies"@);
    let pb = prefix.push("build-dependencies"@);
    let ra = crate::engine::records_one_kind(cur.dependencies, prefix, "dependencies"@, led);
    let rb = crate::engine::records_one_kind(cur.dev_dependencies, prefix, "dev-dependencies"@, led);
    let rc = crate::engine::records_one_kind(
        cur.build_dependencies,
        prefix,
        "build-dependencies"@,
        led,
    );
    let rs = records_kind_tables(cur, prefix, led);
    let d = apply_one_kind(cur.dependencies, prefix, "dependencies"@, led, outs, false);
    let v = apply_one_kind(
        cur.dev_dependencies,
        prefix,
        "dev-dependencies"@,
        d.1,
        outs.skip(d.3 as int),
        false,
    );
    let b = apply_one_kind(
        cur.build_dependencies,
        prefix,
        "build-dependencies"@,
        v.1,
        outs.skip(d.3 + v.3 as int),
        false,
    );
    let r = apply_kind_tables(cur, prefix, led, outs, false);
    lemma_kind_preserves(cur, base, prefix, led, outs, false);
    // first table
    match (cur.dependencies, base.dependencies) {
        (Some(c), Some(bs)) => {
            assert forall|k: int| 0 <= k < ra.len() implies outs[k] == OutcomeV::Replace(
                (#[trigger] records_deps(c, pd, led)[k]).original_source,
            ) by {
                assert(rs[k] == ra[k]);
            }
            lemma_table_revert(c, bs, pd, led, outs);
            law_table_patch_preserves_restorable(c, bs, pd, led, outs, false);
            lemma_apply_deps_used(c, pd, led, outs, false);
        },
        _ => {},
    }
    assert(d.3 == ra.len()) by {
        match cur.dependencies {
            Some(c) => {
                lemma_apply_deps_used(c, pd, led, outs, false);
            },
            None => {},
        }
    }
    // second table, against the image the first left behind
    match (cur.dev_dependencies, base.dev_dependencies) {
        (Some(c), Some(bs)) => {
            assert forall|i: int|
                0 <= i < c.len() && !((#[trigger] c[i]).value is Other) implies led_agree(
                led,
                d.1,
                pv.push(c[i].name),
            ) by {
                assert(!opt_decl_path(base.dependencies, pd, pv.push(c[i].name))) by {
                    match base.dependencies {
                        Some(bd) => {
                            if is_decl_path(bd, pd, pv.push(c[i].name)) {
                                lemma_decl_path_prefix(bd, pd, pv.push(c[i].name));
                                assert(pv.push(c[i].name).drop_last() =~= pv);
                                assert(pd.last() == "dependencies"@);
                                assert(pv.last() == "dev-dependencies"@);
                            }
                        },
                        None => {},
                    }
                }
            }
            lemma_entries_restorable_agree(c, bs, pv, led, d.1);
            lemma_records_deps_agree(c, pv, led, d.1);
            assert forall|k: int|
                0 <= k < records_deps(c, pv, d.1).len() implies outs.skip(d.3 as int)[k]
                == OutcomeV::Replace(
                (#[trigger] records_deps(c, pv, d.1)[k]).original_source,
            ) by {
                assert(records_deps(c, pv, d.1)[k] == records_deps(c, pv, led)[k]);
                assert(rs[ra.len() + k] == rb[k]);
                assert(outs.skip(d.3 as int)[k] == outs[d.3 + k]);
            }
            lemma_table_revert(c, bs, pv, d.1, outs.skip(d.3 as int));
            law_table_patch_preserves_restorable(c, bs, pv, d.1, outs.skip(d.3 as int), false);
            lemma_apply_deps_used(c, pv, d.1, outs.skip(d.3 as int), false);
            lemma_records_deps_led(c, pv, d.1, led);
        },
        _ => {},
    }
    assert(v.3 == rb.len()) by {
        match cur.dev_dependencies {
            Some(c) => {},
            None => {},
        }
    }
    // third table, against the image the first two left behind
    match (cur.build_dependencies, base.build_dependencies) {
        (Some(c), Some(bs)) => {
            assert forall|i: int|
                0 <= i < c.len() && !((#[trigger] c[i]).value is Other) implies led_agree(
                led,
                v.1,
                pb.push(c[i].name),
            ) by {
                let q = pb.push(c[i].name);
                assert(!opt_decl_path(base.dependencies, pd, q)) by {
                    match base.dependencies {
                        Some(bd) => {
                            if is_decl_path(bd, pd, q) {
                                lemma_decl_path_prefix(bd, pd, q);
                                assert(q.drop_last() =~= pb);
                                assert(pd.last() == "dependencies"@);
                                assert(pb.last() == "build-dependencies"@);
                            }
                        },
                        None => {},
                    }
                }
                assert(!opt_decl_path(base.dev_dependencies, pv, q)) by {
                    match base.dev_dependencies {
                        Some(bd) => {
                            if is_decl_path(bd, pv, q) {
                                lemma_decl_path_prefix(bd, pv, q);
                                assert(q.drop_last() =~= pb);
                                assert(pv.last() == "dev-dependencies"@);
                                assert(pb.last() == "build-dependencies"@);
                            }
                        },
                        None => {},
                    }
                }
                assert(led_agree(led, d.1, q));
                assert(led_agree(d.1, v.1, q));
            }
            lemma_entries_restorable_agree(c, bs, pb, led, v.1);
            lemma_records_deps_agree(c, pb, led, v.1);
            assert forall|k: int|
                0 <= k < records_deps(c, pb, v.1).len() implies outs.skip(d.3 + v.3 as int)[k]
                == OutcomeV::Replace(
                (#[trigger] records_deps(c, pb, v.1)[k]).original_source,
            ) by {
                assert(records_deps(c, pb, v.1)[k] == records_deps(c, pb, led)[k]);
                assert(rs[ra.len() + rb.len() + k] == rc[k]);
                assert(outs.skip(d.3 + v.3 as int)[k] == outs[d.3 + v.3 + k]);
            }
            lemma_table_revert(c, bs, pb, v.1, outs.skip(d.3 + v.3 as int));
            law_table_patch_preserves_restorable(c, bs, pb, v.1, outs.skip(d.3 + v.3 as int), false);
        },
        _ => {},
    }
    // the earlier tables' cleared paths survive the later runs
    assert(r.1 == b.1);
    match (cur.dependencies, base.dependencies) {
        (Some(c), Some(bs)) => {
            let c1 = apply_deps(c, pd, led, outs, false).entries;
            assert(r.0.dependencies == Some(c1));
            assert forall|i: int|
                0 <= i < bs.len() && !((#[trigger] bs[i]).value is Other) implies table_form_v(
                c1[i].value,
            ).source == table_form_v(bs[i].value).source && !r.1.dom().contains(
                pd.push(bs[i].name),
            ) by {
                assert(c[i].name == bs[i].name);
                assert((c[i].value is Other) == (bs[i].value is Other));
                let q = pd.push(bs[i].name);
                assert(!apply_deps(c, pd, led, outs, false).led.dom().contains(q));
                assert(!opt_decl_path(base.dev_dependencies, pv, q)) by {
                    match base.dev_dependencies {
                        Some(bd) => {
                            if is_decl_path(bd, pv, q) {
                                lemma_decl_path_prefix(bd, pv, q);
                                assert(q.drop_last() =~= pd);
                                assert(pd.last() == "dependencies"@);
                                assert(pv.last() == "dev-dependencies"@);
                            }
                        },
                        None => {},
                    }
                }
                assert(!opt_decl_path(base.build_dependencies, pb, q)) by {
                    match base.build_dependencies {
                        Some(bd) => {
                            if is_decl_path(bd, pb, q) {
                                lemma_decl_path_prefix(bd, pb, q);
                                assert(q.drop_last() =~= pd);
                                assert(pd.last() == "dependencies"@);
                                assert(pb.last() == "build-dependencies"@);
                            }
                        },
                        None => {},
                    }
                }
                assert(led_agree(d.1, v.1, q));
                assert(led_agree(v.1, b.1, q));
            }
        },
        _ => {},
    }
    match (cur.dev_dependencies, base.dev_dependencies) {
        (Some(c), Some(bs)) => {
            let c1 = apply_deps(c, pv, d.1, outs.skip(d.3 as int), false).entries;
            assert(r.0.dev_dependencies == Some(c1));
            assert forall|i: int|
                0 <= i < bs.len() && !((#[trigger] bs[i]).value is Other) implies table_form_v(
                c1[i].value,
            ).source == table_form_v(bs[i].value).source && !r.1.dom().contains(
                pv.push(bs[i].name),
            ) by {
                assert(c[i].name == bs[i].name);
                assert((c[i].value is Other) == (bs[i].value is Other));
                let q = pv.push(bs[i].name);
                assert(!apply_deps(c, pv, d.1, outs.skip(d.3 as int), false).led.dom().contains(q));
                assert(!opt_decl_path(base.build_dependencies, pb, q)) by {
                    match base.build_dependencies {
                        Some(bd) => {
                            if is_decl_path(bd, pb, q) {
                                lemma_decl_path_prefix(bd, pb, q);
                                assert(q.drop_last() =~= pv);
                                assert(pv.last() == "dev-dependencies"@);
                                assert(pb.last() == "build-dependencies"@);
                            }
                        },
                        None => {},
                    }
                }
                assert(led_agree(v.1, b.1, q));
            }
        },
        _ => {},
    }
}

/// Equal keys give equal path sets: a patched section addresses exactly
/// the paths its base does.
proof fn lemma_kind_paths_same(
    cur: KindTablesV,
    base: KindTablesV,
    prefix: Seq<Seq<char>>,
    led: LedgerImage,
)
    requires
        kind_restorable(cur, base, prefix, led),
    ensures
        forall|p: Seq<Seq<char>>|
            kind_decl_path(cur, prefix, p) == kind_decl_path(base, prefix, p),
{
    assert forall|p: Seq<Seq<char>>|
        kind_decl_path(cur, prefix, p) == kind_decl_path(base, prefix, p) by {
        match (cur.dependencies, base.dependencies) {
            (Some(c), Some(b)) => {
                let pd = prefix.push("dependencies"@);
                if is_decl_path(c, pd, p) {
                    let i = choose|i: int|
                        0 <= i < c.len() && p == pd.push((#[trigger] c[i]).name);
                    assert(c[i].name == b[i].name);
                    assert(is_decl_path(b, pd, p));
                }
                if is_decl_path(b, pd, p) {
                    let i = choose|i: int|
                        0 <= i < b.len() && p == pd.push((#[trigger] b[i]).name);
                    assert(c[i].name == b[i].name);
                    assert(is_decl_path(c, pd, p));
                }
            },
            _ => {},
        }
        match (cur.dev_dependencies, base.dev_dependencies) {
            (Some(c), Some(b)) => {
                let pv = prefix.push("dev-dependencies"@);
                if is_decl_path(c, pv, p) {
                    let i = choose|i: int|
                        0 <= i < c.len() && p == pv.push((#[trigger] c[i]).name);
                    assert(c[i].name == b[i].name);
                    assert(is_decl_path(b, pv, p));
                }
                if is_decl_path(b, pv, p) {
                    let i = choose|i: int|
                        0 <= i < b.len() && p == pv.push((#[trigger] b[i]).name);
                    assert(c[i].name == b[i].name);
                    assert(is_decl_path(c, pv, p));
                }
            },
            _ => {},
        }
        match (cur.build_dependencies, base.build_dependencies) {
            (Some(c), Some(b)) => {
                let pb = prefix.push("build-dependencies"@);
                if is_decl_path(c, pb, p) {
                    let i = choose|i: int|
                        0 <= i < c.len() && p == pb.push((#[trigger] c[i]).name);
                    assert(c[i].name == b[i].name);
                    assert(is_decl_path(b, pb, p));
                }
                if is_decl_path(b, pb, p) {
                    let i = choose|i: int|
                        0 <= i < b.len() && p == pb.push((#[trigger] b[i]).name);
                    assert(c[i].name == b[i].name);
                    assert(is_decl_path(c, pb, p));
                }
            },
            _ => {},
        }
    }
}

/// A section's records do not depend on ledger paths outside the
/// section's declarations.
proof fn lemma_records_kind_agree(
    kt: KindTablesV,
    prefix: Seq<Seq<char>>,
    l1: LedgerImage,
    l2: LedgerImage,
)
    requires
        forall|p: Seq<Seq<char>>|
            kind_decl_path(kt, prefix, p) ==> #[trigger] led_agree(l1, l2, p),
    ensures
        records_kind_tables(kt, prefix, l1) == records_kind_tables(kt, prefix, l2),
{
    match kt.dependencies {
        Some(es) => {
            assert forall|i: int|
                0 <= i < es.len() && !((#[trigger] es[i]).value is Other) implies led_agree(
                l1,
                l2,
                prefix.push("dependencies"@).push(es[i].name),
            ) by {
                assert(is_decl_path(es, prefix.push("dependencies"@), prefix.push(
                    "dependencies"@,
                ).push(es[i].name)));
            }
            lemma_records_deps_agree(es, prefix.push("dependencies"@), l1, l2);
        },
        None => {},
    }
    match kt.dev_dependencies {
        Some(es) => {
            assert forall|i: int|
                0 <= i < es.len() && !((#[trigger] es[i]).value is Other) implies led_agree(
                l1,
                l2,
                prefix.push("dev-dependencies"@).push(es[i].name),
            ) by {
                assert(is_decl_path(es, prefix.push("dev-dependencies"@), prefix.push(
                    "dev-dependencies"@,
                ).push(es[i].name)));
            }
            lemma_records_deps_agree(es, prefix.push("dev-dependencies"@), l1, l2);
        },
        None => {},
    }
    match kt.build_dependencies {
        Some(es) => {
            assert forall|i: int|
                0 <= i < es.len() && !((#[trigger] es[i]).value is Other) implies led_agree(
                l1,
                l2,
                prefix.push("build-dependencies"@).push(es[i].name),
            ) by {
                assert(is_decl_path(es, prefix.push("build-dependencies"@), prefix.push(
                    "build-dependencies"@,
                ).push(es[i].name)));
            }
            lemma_records_deps_agree(es, prefix.push("build-dependencies"@), l1, l2);
        },
        None => {},
    }
}

/// Every declaration under the targets carries its base source and no
/// backup.
pub open spec fn targets_restored(
    cur: Seq<TargetBlockV>,
    base: Seq<TargetBlockV>,
    prefix: Seq<Seq<char>>,
    led: LedgerImage,
) -> bool {
    forall|k: int|
        0 <= k < base.len() ==> kind_restored(
            (#[trigger] cur[k]).tables,
            base[k].tables,
            prefix.push("target"@).push(base[k].cfg),
            led,
        )
}

/// A revert-shaped run over the targets restores every declaration.
proof fn lemma_targets_revert(
    cur: Seq<TargetBlockV>,
    base: Seq<TargetBlockV>,
    prefix: Seq<Seq<char>>,
    led: LedgerImage,
    outs: Seq<OutcomeV>,
)
    requires
        targets_wf(base),
        targets_restorable(cur, base, prefix, led),
        outs.len() >= records_targets(cur, prefix, led).len(),
        forall|k: int|
            0 <= k < records_targets(cur, prefix, led).len() ==> outs[k] == OutcomeV::Replace(
                (#[trigger] records_targets(cur, prefix, led)[k]).original_source,
            ),
    ensures
        ({
            let r = apply_targets(cur, prefix, led, outs, false);
            targets_restored(r.0, base, prefix, r.1)
        }),
    decreases cur.len(),
{
    let r = apply_targets(cur, prefix, led, outs, false);
    let rs = records_targets(cur, prefix, led);
    if cur.len() > 0 {
        let p20 = prefix.push("target"@).push(base[0].cfg);
        assert(cur[0].cfg == base[0].cfg);
        let r0 = apply_kind_tables(cur[0].tables, p20, led, outs, false);
        let rk = records_kind_tables(cur[0].tables, p20, led);
        assert forall|k: int| 0 <= k < rk.len() implies outs[k] == OutcomeV::Replace(
            (#[trigger] rk[k]).original_source,
        ) by {
            assert(rs[k] == rk[k]);
        }
        lemma_kind_revert(cur[0].tables, base[0].tables, p20, led, outs);
        lemma_kind_preserves(cur[0].tables, base[0].tables, p20, led, outs, false);
        crate::engine::lemma_apply_kind_used(cur[0].tables, p20, led, outs, false);
        assert(r0.3 == rk.len());
        assert(targets_wf(base.drop_first())) by {
            assert forall|k: int|
                0 <= k < base.drop_first().len() implies kind_wf(
                (#[trigger] base.drop_first()[k]).tables,
            ) by {
                assert(base.drop_first()[k] == base[k + 1]);
            }
            assert forall|i: int, j: int|
                0 <= i < j < base.drop_first().len() implies (#[trigger] base.drop_first()[
                i
            ]).cfg != (#[trigger] base.drop_first()[j]).cfg by {
                assert(base.drop_first()[i] == base[i + 1]);
                assert(base.drop_first()[j] == base[j + 1]);
            }
        }
        // the rest's declarations and records are untouched by the head
        assert forall|k: int, p: Seq<Seq<char>>|
            0 <= k < cur.drop_first().len() && kind_decl_path(
                (#[trigger] cur.drop_first()[k]).tables,
                prefix.push("target"@).push(base.drop_first()[k].cfg),
                p,
            ) implies #[trigger] led_agree(led, r0.1, p) by {
            assert(cur.drop_first()[k] == cur[k + 1]);
            assert(base.drop_first()[k] == base[k + 1]);
            let p2k = prefix.push("target"@).push(base[k + 1].cfg);
            lemma_kind_paths_same(cur[k + 1].tables, base[k + 1].tables, p2k, led);
            assert(kind_decl_path(base[k + 1].tables, p2k, p));
            assert(!kind_decl_path(base[0].tables, p20, p)) by {
                if kind_decl_path(base[0].tables, p20, p) {
                    lemma_kind_path_shape(base[0].tables, p20, p);
                    lemma_kind_path_shape(base[k + 1].tables, p2k, p);
                    assert(p20 == p2k);
                    assert(p20.last() == base[0].cfg);
                    assert(p2k.last() == base[k + 1].cfg);
                }
            }
        }
        assert(targets_restorable(cur.drop_first(), base.drop_first(), prefix, r0.1)) by {
            assert forall|k: int|
                0 <= k < cur.drop_first().len() implies (#[trigger] cur.drop_first()[k]).cfg
                == base.drop_first()[k].cfg && kind_restorable(
                cur.drop_first()[k].tables,
                base.drop_first()[k].tables,
                prefix.push("target"@).push(base.drop_first()[k].cfg),
                r0.1,
            ) by {
                assert(cur.drop_first()[k] == cur[k + 1]);
                assert(base.drop_first()[k] == base[k + 1]);
                let p2k = prefix.push("target"@).push(base[k + 1].cfg);
                assert forall|p: Seq<Seq<char>>|
                    kind_decl_path(base[k + 1].tables, p2k, p) implies #[trigger] led_agree(
                    led,
                    r0.1,
                    p,
                ) by {
                    lemma_kind_paths_same(cur[k + 1].tables, base[k + 1].tables, p2k, led);
                    assert(kind_decl_path(cur.drop_first()[k].tables, p2k, p));
                }
                lemma_kind_restorable_agree(
                    cur[k + 1].tables,
                    base[k + 1].tables,
                    p2k,
                    led,
                    r0.1,
                );
            }
        }
        // the rest's records, read after the head's run, are the tail of
        // the records read before it
        assert forall|k2: int|
            0 <= k2 < cur.drop_first().len() implies records_kind_tables(
            (#[trigger] cur.drop_first()[k2]).tables,
            prefix.push("target"@).push(cur.drop_first()[k2].cfg),
            r0.1,
        ) == records_kind_tables(
            cur.drop_first()[k2].tables,
            prefix.push("target"@).push(cur.drop_first()[k2].cfg),
            led,
        ) by {
            assert(cur.drop_first()[k2] == cur[k2 + 1]);
            let p2k = prefix.push("target"@).push(cur[k2 + 1].cfg);
            assert(cur[k2 + 1].cfg == base[k2 + 1].cfg);
            assert forall|p: Seq<Seq<char>>|
                kind_decl_path(cur[k2 + 1].tables, p2k, p) implies #[trigger] led_agree(
                led,
                r0.1,
                p,
            ) by {
                assert(kind_decl_path(cur.drop_first()[k2].tables, p2k, p));
            }
            lemma_records_kind_agree(cur[k2 + 1].tables, p2k, led, r0.1);
        }
        lemma_records_targets_same(cur.drop_first(), prefix, led, r0.1);
        assert forall|k: int|
            0 <= k < records_targets(cur.drop_first(), prefix, r0.1).len() implies outs.skip(
            r0.3 as int,
        )[k] == OutcomeV::Replace(
            (#[trigger] records_targets(cur.drop_first(), prefix, r0.1)[k]).original_source,
        ) by {
            assert(records_targets(cur.drop_first(), prefix, r0.1)[k] == records_targets(
                cur.drop_first(),
                prefix,
                led,
            )[k]);
            assert(rs[rk.len() + k] == records_targets(cur.drop_first(), prefix, led)[k]);
            assert(outs.skip(r0.3 as int)[k] == outs[r0.3 + k]);
        }
        lemma_targets_revert(
            cur.drop_first(),
            base.drop_first(),
            prefix,
            r0.1,
            outs.skip(r0.3 as int),
        );
        lemma_targets_preserves(
            cur.drop_first(),
            base.drop_first(),
            prefix,
            r0.1,
            outs.skip(r0.3 as int),
            false,
        );
        let rrest = apply_targets(cur.drop_first(), prefix, r0.1, outs.skip(r0.3 as int), false);
        assert(r.0 == seq![TargetBlockV { cfg: cur[0].cfg, tables: r0.0 }] + rrest.0);
        assert(r.1 == rrest.1);
        // the head's restored state survives the rest
        assert forall|k: int|
            0 <= k < base.len() implies kind_restored(
            (#[trigger] r.0[k]).tables,
            base[k].tables,
            prefix.push("target"@).push(base[k].cfg),
            r.1,
        ) by {
            if k == 0 {
                assert(r.0[0].tables == r0.0);
                assert forall|p: Seq<Seq<char>>|
                    kind_decl_path(base[0].tables, p20, p) implies #[trigger] led_agree(
                    r0.1,
                    rrest.1,
                    p,
                ) by {
                    assert(!targets_decl_path(base.drop_first(), prefix, p)) by {
                        if targets_decl_path(base.drop_first(), prefix, p) {
                            let k2 = choose|k2: int|
                                0 <= k2 < base.drop_first().len() && kind_decl_path(
                                    (#[trigger] base.drop_first()[k2]).tables,
                                    prefix.push("target"@).push(base.drop_first()[k2].cfg),
                                    p,
                                );
                            assert(base.drop_first()[k2] == base[k2 + 1]);
                            let p2k = prefix.push("target"@).push(base[k2 + 1].cfg);
                            lemma_kind_path_shape(base[0].tables, p20, p);
                            lemma_kind_path_shape(base[k2 + 1].tables, p2k, p);
                            assert(p20 == p2k);
                            assert(p20.last() == base[0].cfg);
                            assert(p2k.last() == base[k2 + 1].cfg);
                        }
                    }
                }
                lemma_kind_restored_agree(r0.0, base[0].tables, p20, r0.1, rrest.1);
            } else {
                assert(r.0[k] == rrest.0[k - 1]);
                assert(base.drop_first()[k - 1] == base[k]);
            }
        }
    }
}

/// Equal tables under equal images give equal records, blockwise.
proof fn lemma_records_targets_same(
    ts: Seq<TargetBlockV>,
    prefix: Seq<Seq<char>>,
    l1: LedgerImage,
    l2: LedgerImage,
)
    requires
        forall|k: int|
            0 <= k < ts.len() ==> records_kind_tables(
                (#[trigger] ts[k]).tables,
                prefix.push("target"@).push(ts[k].cfg),
                l2,
            ) == records_kind_tables(
                ts[k].tables,
                prefix.push("target"@).push(ts[k].cfg),
                l1,
            ),
    ensures
        records_targets(ts, prefix, l2) == records_targets(ts, prefix, l1),
    decreases ts.len(),
{
    if ts.len() > 0 {
        assert forall|k: int|
            0 <= k < ts.drop_first().len() implies records_kind_tables(
            (#[trigger] ts.drop_first()[k]).tables,
            prefix.push("target"@).push(ts.drop_first()[k].cfg),
            l2,
        ) == records_kind_tables(
            ts.drop_first()[k].tables,
            prefix.push("target"@).push(ts.drop_first()[k].cfg),
            l1,
        ) by {
            assert(ts.drop_first()[k] == ts[k + 1]);
        }
        lemma_records_targets_same(ts.drop_first(), prefix, l1, l2);
        assert(ts[0] == ts[0]);
        assert(records_targets(ts, prefix, l2) =~= records_targets(ts, prefix, l1));
    }
}

/// Restored declarations stay restored under images that agree on their
/// paths.
proof fn lemma_kind_restored_agree(
    kt: KindTablesV,
    base: KindTablesV,
    prefix: Seq<Seq<char>>,
    l1: LedgerImage,
    l2: LedgerImage,
)
    requires
        kind_restored(kt, base, prefix, l1),
        forall|p: Seq<Seq<char>>|
            kind_decl_path(base, prefix, p) ==> #[trigger] led_agree(l1, l2, p),
    ensures
        kind_restored(kt, base, prefix, l2),
{
    match (kt.dependencies, base.dependencies) {
        (Some(c), Some(b)) => {
            assert forall|i: int|
                0 <= i < b.len() && !((#[trigger] b[i]).value is Other) implies table_form_v(
                c[i].value,
            ).source == table_form_v(b[i].value).source && !l2.dom().contains(
                prefix.push("dependencies"@).push(b[i].name),
            ) by {
                assert(is_decl_path(b, prefix.push("dependencies"@), prefix.push(
                    "dependencies"@,
                ).push(b[i].name)));
                assert(led_agree(l1, l2, prefix.push("dependencies"@).push(b[i].name)));
            }
        },
        _ => {},
    }
    match (kt.dev_dependencies, base.dev_dependencies) {
        (Some(c), Some(b)) => {
            assert forall|i: int|
                0 <= i < b.len() && !((#[trigger] b[i]).value is Other) implies table_form_v(
                c[i].value,
            ).source == table_form_v(b[i].value).source && !l2.dom().contains(
                prefix.push("dev-dependencies"@).push(b[i].name),
            ) by {
                assert(is_decl_path(b, prefix.push("dev-dependencies"@), prefix.push(
                    "dev-dependencies"@,
                ).push(b[i].name)));
                assert(led_agree(l1, l2, prefix.push("dev-dependencies"@).push(b[i].name)));
            }
        },
        _ => {},
    }
    match (kt.build_dependencies, base.build_dependencies) {
        (Some(c), Some(b)) => {
            assert forall|i: int|
                0 <= i < b.len() && !((#[trigger] b[i]).value is Other) implies table_form_v(
                c[i].value,
            ).source == table_form_v(b[i].value).source && !l2.dom().contains(
                prefix.push("build-dependencies"@).push(b[i].name),
            ) by {
                assert(is_decl_path(b, prefix.push("build-dependencies"@), prefix.push(
                    "build-dependencies"@,
                ).push(b[i].name)));
                assert(led_agree(l1, l2, prefix.push("build-dependencies"@).push(b[i].name)));
            }
        },
        _ => {},
    }
}

/// Every declaration of one section carries its base source and no
/// backup.
pub open spec fn sections_restored(
    cur: SectionsV,
    base: SectionsV,
    prefix: Seq<Seq<char>>,
    led: LedgerImage,
) -> bool {
    &&& kind_restored(cur.tables, base.tables, prefix, led)
    &&& targets_restored(cur.targets, base.targets, prefix, led)
}

/// Equal keys and configurations give equal path sets for whole
/// sections.
proof fn lemma_sections_paths_same(
    cur: SectionsV,
    base: SectionsV,
    prefix: Seq<Seq<char>>,
    led: LedgerImage,
)
    requires
        sections_restorable(cur, base, prefix, led),
    ensures
        forall|p: Seq<Seq<char>>|
            sections_decl_path(cur, prefix, p) == sections_decl_path(base, prefix, p),
{
    lemma_kind_paths_same(cur.tables, base.tables, prefix, led);
    assert forall|p: Seq<Seq<char>>|
        sections_decl_path(cur, prefix, p) == sections_decl_path(base, prefix, p) by {
        if targets_decl_path(cur.targets, prefix, p) {
            let k = choose|k: int|
                0 <= k < cur.targets.len() && kind_decl_path(
                    (#[trigger] cur.targets[k]).tables,
                    prefix.push("target"@).push(cur.targets[k].cfg),
                    p,
                );
            assert(cur.targets[k].cfg == base.targets[k].cfg);
            lemma_kind_paths_same(
                cur.targets[k].tables,
                base.targets[k].tables,
                prefix.push("target"@).push(base.targets[k].cfg),
                led,
            );
            assert(kind_decl_path(
                base.targets[k].tables,
                prefix.push("target"@).push(base.targets[k].cfg),
                p,
            ));
            assert(targets_decl_path(base.targets, prefix, p));
        }
        if targets_decl_path(base.targets, prefix, p) {
            let k = choose|k: int|
                0 <= k < base.targets.len() && kind_decl_path(
                    (#[trigger] base.targets[k]).tables,
                    prefix.push("target"@).push(base.targets[k].cfg),
                    p,
                );
            assert(cur.targets[k].cfg == base.targets[k].cfg);
            lemma_kind_paths_same(
                cur.targets[k].tables,
                base.targets[k].tables,
                prefix.push("target"@).push(base.targets[k].cfg),
                led,
            );
            assert(kind_decl_path(
                cur.targets[k].tables,
                prefix.push("target"@).push(cur.targets[k].cfg),
                p,
            ));
            assert(targets_decl_path(cur.targets, prefix, p));
        }
    }
}

/// A whole section's records do not depend on ledger paths outside the
/// section's declarations.
proof fn lemma_records_sections_same(
    sec: SectionsV,
    prefix: Seq<Seq<char>>,
    l1: LedgerImage,
    l2: LedgerImage,
)
    requires
        forall|p: Seq<Seq<char>>|
            sections_decl_path(sec, prefix, p) ==> #[trigger] led_agree(l1, l2, p),
    ensures
        records_sections(sec, prefix, l2) == records_sections(sec, prefix, l1),
{
    assert forall|p: Seq<Seq<char>>|
        kind_decl_path(sec.tables, prefix, p) implies #[trigger] led_agree(l1, l2, p) by {
        assert(sections_decl_path(sec, prefix, p));
    }
    lemma_records_kind_agree(sec.tables, prefix, l1, l2);
    assert forall|k: int|
        0 <= k < sec.targets.len() implies records_kind_tables(
        (#[trigger] sec.targets[k]).tables,
        prefix.push("target"@).push(sec.targets[k].cfg),
        l2,
    ) == records_kind_tables(
        sec.targets[k].tables,
        prefix.push("target"@).push(sec.targets[k].cfg),
        l1,
    ) by {
        assert forall|p: Seq<Seq<char>>|
            kind_decl_path(
                sec.targets[k].tables,
                prefix.push("target"@).push(sec.targets[k].cfg),
                p,
            ) implies #[trigger] led_agree(l1, l2, p) by {
            assert(targets_decl_path(sec.targets, prefix, p));
            assert(sections_decl_path(sec, prefix, p));
        }
        lemma_records_kind_agree(
            sec.targets[k].tables,
            prefix.push("target"@).push(sec.targets[k].cfg),
            l1,
            l2,
        );
    }
    lemma_records_targets_same(sec.targets, prefix, l1, l2);
}

/// A restored section stays restored under images that agree on its
/// paths.
proof fn lemma_sections_restored_agree(
    cur: SectionsV,
    base: SectionsV,
    prefix: Seq<Seq<char>>,
    l1: LedgerImage,
    l2: LedgerImage,
)
    requires
        sections_restored(cur, base, prefix, l1),
        forall|p: Seq<Seq<char>>|
            sections_decl_path(base, prefix, p) ==> #[trigger] led_agree(l1, l2, p),
    ensures
        sections_restored(cur, base, prefix, l2),
{
    assert forall|p: Seq<Seq<char>>|
        kind_decl_path(base.tables, prefix, p) implies #[trigger] led_agree(l1, l2, p) by {
        assert(sections_decl_path(base, prefix, p));
    }
    lemma_kind_restored_agree(cur.tables, base.tables, prefix, l1, l2);
    assert forall|k: int|
        0 <= k < base.targets.len() implies kind_restored(
        (#[trigger] cur.targets[k]).tables,
        base.targets[k].tables,
        prefix.push("target"@).push(base.targets[k].cfg),
        l2,
    ) by {
        let p2 = prefix.push("target"@).push(base.targets[k].cfg);
        assert forall|p: Seq<Seq<char>>|
            kind_decl_path(base.targets[k].tables, p2, p) implies #[trigger] led_agree(
            l1,
            l2,
            p,
        ) by {
            assert(targets_decl_path(base.targets, prefix, p));
            assert(sections_decl_path(base, prefix, p));
        }
        lemma_kind_restored_agree(cur.targets[k].tables, base.targets[k].tables, p2, l1, l2);
    }
}

/// A revert-shaped run over one section restores all its declarations.
proof fn lemma_sections_revert(
    cur: SectionsV,
    base: SectionsV,
    prefix: Seq<Seq<char>>,
    led: LedgerImage,
    outs: Seq<OutcomeV>,
)
    requires
        sections_wf(base),
        sections_restorable(cur, base, prefix, led),
        outs.len() >= records_sections(cur, prefix, led).len(),
        forall|k: int|
            0 <= k < records_sections(cur, prefix, led).len() ==> outs[k] == OutcomeV::Replace(
                (#[trigger] records_sections(cur, prefix, led)[k]).original_source,
            ),
    ensures
        ({
            let r = apply_sections(cur, prefix, led, outs, false);
            sections_restored(r.0, base, prefix, r.1)
        }),
{
    let r = apply_sections(cur, prefix, led, outs, false);
    let k = apply_kind_tables(cur.tables, prefix, led, outs, false);
    let t = apply_targets(cur.targets, prefix, k.1, outs.skip(k.3 as int), false);
    let ra = records_kind_tables(cur.tables, prefix, led);
    let rt = records_targets(cur.targets, prefix, led);
    let rs = records_sections(cur, prefix, led);
    assert forall|k2: int| 0 <= k2 < ra.len() implies outs[k2] == OutcomeV::Replace(
        (#[trigger] ra[k2]).original_source,
    ) by {
        assert(rs[k2] == ra[k2]);
    }
    lemma_kind_revert(cur.tables, base.tables, prefix, led, outs);
    lemma_kind_preserves(cur.tables, base.tables, prefix, led, outs, false);
    crate::engine::lemma_apply_kind_used(cur.tables, prefix, led, outs, false);
    assert(k.3 == ra.len());
    // the targets' declarations and records are untouched by the root run
    assert forall|k2: int, p: Seq<Seq<char>>|
        0 <= k2 < cur.targets.len() && kind_decl_path(
            (#[trigger] cur.targets[k2]).tables,
            prefix.push("target"@).push(cur.targets[k2].cfg),
            p,
        ) implies #[trigger] led_agree(led, k.1, p) by {
        let p2 = prefix.push("target"@).push(base.targets[k2].cfg);
        assert(cur.targets[k2].cfg == base.targets[k2].cfg);
        lemma_kind_paths_same(cur.targets[k2].tables, base.targets[k2].tables, p2, led);
        assert(kind_decl_path(base.targets[k2].tables, p2, p));
        assert(!kind_decl_path(base.tables, prefix, p)) by {
            if kind_decl_path(base.tables, prefix, p) {
                lemma_kind_path_shape(base.tables, prefix, p);
                lemma_kind_path_shape(base.targets[k2].tables, p2, p);
            }
        }
    }
    assert(targets_restorable(cur.targets, base.targets, prefix, k.1)) by {
        assert forall|j: int|
            0 <= j < cur.targets.len() implies kind_restorable(
            (#[trigger] cur.targets[j]).tables,
            base.targets[j].tables,
            prefix.push("target"@).push(base.targets[j].cfg),
            k.1,
        ) by {
            let p2 = prefix.push("target"@).push(base.targets[j].cfg);
            assert forall|p: Seq<Seq<char>>|
                kind_decl_path(base.targets[j].tables, p2, p) implies #[trigger] led_agree(
                led,
                k.1,
                p,
            ) by {
                lemma_kind_paths_same(cur.targets[j].tables, base.targets[j].tables, p2, led);
                assert(kind_decl_path(cur.targets[j].tables, p2, p));
            }
            lemma_kind_restorable_agree(
                cur.targets[j].tables,
                base.targets[j].tables,
                p2,
                led,
                k.1,
            );
        }
    }
    assert forall|k2: int|
        0 <= k2 < cur.targets.len() implies records_kind_tables(
        (#[trigger] cur.targets[k2]).tables,
        prefix.push("target"@).push(cur.targets[k2].cfg),
        k.1,
    ) == records_kind_tables(
        cur.targets[k2].tables,
        prefix.push("target"@).push(cur.targets[k2].cfg),
        led,
    ) by {
        let p2 = prefix.push("target"@).push(cur.targets[k2].cfg);
        assert forall|p: Seq<Seq<char>>|
            kind_decl_path(cur.targets[k2].tables, p2, p) implies #[trigger] led_agree(
            led,
            k.1,
            p,
        ) by {}
        lemma_records_kind_agree(cur.targets[k2].tables, p2, led, k.1);
    }
    lemma_records_targets_same(cur.targets, prefix, led, k.1);
    assert forall|k2: int|
        0 <= k2 < records_targets(cur.targets, prefix, k.1).len() implies outs.skip(k.3 as int)[
        k2
    ] == OutcomeV::Replace(
        (#[trigger] records_targets(cur.targets, prefix, k.1)[k2]).original_source,
    ) by {
        assert(records_targets(cur.targets, prefix, k.1)[k2] == rt[k2]);
        assert(rs[ra.len() + k2] == rt[k2]);
        assert(outs.skip(k.3 as int)[k2] == outs[k.3 + k2]);
    }
    lemma_targets_revert(cur.targets, base.targets, prefix, k.1, outs.skip(k.3 as int));
    lemma_targets_preserves(cur.targets, base.targets, prefix, k.1, outs.skip(k.3 as int), false);
    assert(r.0.tables == k.0);
    assert(r.0.targets == t.0);
    assert(r.1 == t.1);
    // the root tables' restored state survives the targets
    assert forall|p: Seq<Seq<char>>|
        kind_decl_path(base.tables, prefix, p) implies #[trigger] led_agree(k.1, t.1, p) by {
        assert(!targets_decl_path(base.targets, prefix, p)) by {
            if targets_decl_path(base.targets, prefix, p) {
                lemma_targets_path_shape(base.targets, prefix, p);
                lemma_kind_path_shape(base.tables, prefix, p);
            }
        }
    }
    lemma_kind_restored_agree(k.0, base.tables, prefix, k.1, t.1);
}

/// Round trip, whole manifest, second half: a revert run — each outcome
/// the record's original source — restores every declaration of the
/// whole manifest to the source it had in the manifest its ledger-free
/// history started from, and leaves no declaration with a backup.
pub proof fn law_revert_restores(cur: ManifestV, base: ManifestV)
    requires
        manifest_wf_for_laws(base),
        manifest_restorable(cur, base),
    ensures
        ({
            let ap = apply_manifest_v(cur, revert_outcomes(manifest_records(cur)), false);
            let led = initial_ledger_map(ap.0.ledger);
            &&& sections_restored(ap.0.root, base.root, seq![], led)
            &&& match (ap.0.workspace, base.workspace) {
                (Some(c), Some(b)) => sections_restored(c, b, seq!["workspace"@], led),
                (None, None) => true,
                _ => false,
            }
        }),
{
    lemma_segment_literals();
    let led0 = initial_ledger_map(cur.ledger);
    let wsp: Seq<Seq<char>> = seq!["workspace"@];
    let outs = revert_outcomes(manifest_records(cur));
    let rsr = records_sections(cur.root, seq![], led0);
    let r = apply_sections(cur.root, seq![], led0, outs, false);
    let ap = apply_manifest_v(cur, outs, false);
    assert forall|k: int| 0 <= k < rsr.len() implies outs[k] == OutcomeV::Replace(
        (#[trigger] rsr[k]).original_source,
    ) by {
        assert(manifest_records(cur)[k] == rsr[k]);
    }
    assert(outs.len() == manifest_records(cur).len());
    lemma_sections_revert(cur.root, base.root, seq![], led0, outs);
    lemma_sections_preserves(cur.root, base.root, seq![], led0, outs, false);
    crate::engine::lemma_apply_sections_used(cur.root, seq![], led0, outs, false);
    assert(r.3 == rsr.len());
    match (cur.workspace, base.workspace) {
        (Some(cw), Some(bw)) => {
            // the workspace's declarations and records were untouched by
            // the root run
            assert forall|p: Seq<Seq<char>>|
                sections_decl_path(cw, wsp, p) implies #[trigger] led_agree(led0, r.1, p) by {
                lemma_sections_paths_same(cw, bw, wsp, led0);
                assert(sections_decl_path(bw, wsp, p));
                assert(!sections_decl_path(base.root, seq![], p)) by {
                    if sections_decl_path(base.root, seq![], p) {
                        lemma_sections_path_first(base.root, seq![], p);
                        lemma_sections_path_first(bw, wsp, p);
                        assert(p[0] == "workspace"@);
                    }
                }
            }
            assert forall|p: Seq<Seq<char>>|
                sections_decl_path(bw, wsp, p) implies #[trigger] led_agree(led0, r.1, p) by {
                lemma_sections_paths_same(cw, bw, wsp, led0);
                assert(sections_decl_path(cw, wsp, p));
            }
            lemma_sections_restorable_agree(cw, bw, wsp, led0, r.1);
            lemma_records_sections_same(cw, wsp, led0, r.1);
            assert forall|k: int|
                0 <= k < records_sections(cw, wsp, r.1).len() implies outs.skip(r.3 as int)[k]
                == OutcomeV::Replace(
                (#[trigger] records_sections(cw, wsp, r.1)[k]).original_source,
            ) by {
                assert(records_sections(cw, wsp, r.1)[k] == records_sections(cw, wsp, led0)[k]);
                assert(manifest_records(cur)[rsr.len() + k] == records_sections(
                    cw,
                    wsp,
                    led0,
                )[k]);
                assert(outs.skip(r.3 as int)[k] == outs[r.3 + k]);
            }
            lemma_sections_revert(cw, bw, wsp, r.1, outs.skip(r.3 as int));
            lemma_sections_preserves(cw, bw, wsp, r.1, outs.skip(r.3 as int), false);
            let q = apply_sections(cw, wsp, r.1, outs.skip(r.3 as int), false);
            // the root's restored state survives the workspace run
            assert forall|p: Seq<Seq<char>>|
                sections_decl_path(base.root, seq![], p) implies #[trigger] led_agree(
                r.1,
                q.1,
                p,
            ) by {
                assert(!sections_decl_path(bw, wsp, p)) by {
                    if sections_decl_path(bw, wsp, p) {
                        lemma_sections_path_first(base.root, seq![], p);
                        lemma_sections_path_first(bw, wsp, p);
                        assert(p[0] == "workspace"@);
                    }
                }
            }
            lemma_sections_restored_agree(r.0, base.root, seq![], r.1, q.1);
            assert(ap.0.root == r.0);
            assert(ap.0.workspace == Some(q.0));
            assert(initial_ledger_map(ap.0.ledger) == q.1) by {
                match cur.ledger {
                    LedgerV::Present(_) => {},
                    _ => {},
                }
            }
        },
        (None, None) => {
            assert(ap.0.root == r.0);
            assert(ap.0.workspace is None);
            assert(initial_ledger_map(ap.0.ledger) == r.1) by {
                match cur.ledger {
                    LedgerV::Present(_) => {},
                    _ => {},
                }
            }
        },
        _ => {},
    }
}

/// A whole table run touches no ledger path outside the table's own
/// declaration paths.
proof fn lemma_deps_footprint(
    cur: Seq<DepEntryV>,
    prefix: Seq<Seq<char>>,
    led: LedgerImage,
    outs: Seq<OutcomeV>,
    fi: bool,
)
    requires
        unique_names(cur),
        forall|i: int|
            0 <= i < cur.len() && !((#[trigger] cur[i]).value is Other) ==> unaliased_decl(
                cur[i].name,
                cur[i].value,
            ),
    ensures
        ({
            let r = apply_deps(cur, prefix, led, outs, fi);
            forall|p: Seq<Seq<char>>|
                !is_decl_path(cur, prefix, p) ==> #[trigger] led_agree(led, r.led, p)
        }),
{
    let r = apply_deps(cur, prefix, led, outs, fi);
    let p1 = apply_sel(cur, prefix, led, outs, true, fi);
    let outs2 = outs.skip(p1.used as int);
    let p2 = apply_sel(cur, prefix, p1.led, outs2, false, fi);
    lemma_sel_footprint(cur, prefix, led, outs, true, fi);
    lemma_sel_footprint(cur, prefix, p1.led, outs2, false, fi);
    assert forall|p: Seq<Seq<char>>|
        !is_decl_path(cur, prefix, p) implies #[trigger] led_agree(led, r.led, p) by {
        assert(!is_pass_path(cur, prefix, p, true)) by {
            if is_pass_path(cur, prefix, p, true) {
                let j = choose|j: int|
                    0 <= j < cur.len() && in_pass((#[trigger] cur[j]).value, true) && p
                        == prefix.push(cur[j].name);
                assert(is_decl_path(cur, prefix, p));
            }
        }
        assert(!is_pass_path(cur, prefix, p, false)) by {
            if is_pass_path(cur, prefix, p, false) {
                let j = choose|j: int|
                    0 <= j < cur.len() && in_pass((#[trigger] cur[j]).value, false) && p
                        == prefix.push(cur[j].name);
                assert(is_decl_path(cur, prefix, p));
            }
        }
        assert(led_agree(led, p1.led, p));
        assert(led_agree(p1.led, p2.led, p));
    }
}

/// The second-run records of a processed table all draw no-ops.
pub open spec fn entries_second_noop(
    res: Seq<DepEntryV>,
    orig: Seq<DepEntryV>,
    prefix: Seq<Seq<char>>,
    led: LedgerImage,
    d: spec_fn(InputV) -> OutcomeV,
) -> bool {
    forall|i: int|
        0 <= i < orig.len() && !((#[trigger] orig[i]).value is Other) ==> noop_outcome(
            d(record_v(prefix.push(orig[i].name), orig[i].name, res[i].value, led)),
            record_v(prefix.push(orig[i].name), orig[i].name, res[i].value, led),
        )
}

/// The run keeps the table's keys, and skipped shapes stay untouched.
pub open spec fn entries_shape(res: Seq<DepEntryV>, orig: Seq<DepEntryV>) -> bool {
    &&& res.len() == orig.len()
    &&& forall|i: int| 0 <= i < orig.len() ==> (#[trigger] res[i]).name == orig[i].name
    &&& forall|i: int|
        0 <= i < orig.len() && (#[trigger] orig[i]).value is Other ==> res[i] == orig[i]
}

/// Second-run no-ops transported along ledger images that agree on the
/// table's paths.
proof fn lemma_second_noop_agree(
    res: Seq<DepEntryV>,
    orig: Seq<DepEntryV>,
    prefix: Seq<Seq<char>>,
    l1: LedgerImage,
    l2: LedgerImage,
    d: spec_fn(InputV) -> OutcomeV,
)
    requires
        entries_second_noop(res, orig, prefix, l1, d),
        forall|i: int|
            0 <= i < orig.len() && !((#[trigger] orig[i]).value is Other) ==> led_agree(
                l1,
                l2,
                prefix.push(orig[i].name),
            ),
    ensures
        entries_second_noop(res, orig, prefix, l2, d),
{
    assert forall|i: int|
        0 <= i < orig.len() && !((#[trigger] orig[i]).value is Other) implies noop_outcome(
        d(record_v(prefix.push(orig[i].name), orig[i].name, res[i].value, l2)),
        record_v(prefix.push(orig[i].name), orig[i].name, res[i].value, l2),
    ) by {
        assert(led_agree(l1, l2, prefix.push(orig[i].name)));
        assert(record_v(prefix.push(orig[i].name), orig[i].name, res[i].value, l2) == record_v(
            prefix.push(orig[i].name),
            orig[i].name,
            res[i].value,
            l1,
        ));
    }
}

/// The second-run records of a processed section all draw no-ops, and
/// the run kept the section's shape.
pub open spec fn kind_second_noop(
    rkt: KindTablesV,
    kt: KindTablesV,
    prefix: Seq<Seq<char>>,
    led: LedgerImage,
    d: spec_fn(InputV) -> OutcomeV,
) -> bool {
    &&& match (rkt.dependencies, kt.dependencies) {
        (Some(res), Some(orig)) => entries_shape(res, orig) && entries_second_noop(
            res,
            orig,
            prefix.push("dependencies"@),
            led,
            d,
        ),
        (None, None) => true,
        _ => false,
    }
    &&& match (rkt.dev_dependencies, kt.dev_dependencies) {
        (Some(res), Some(orig)) => entries_shape(res, orig) && entries_second_noop(
            res,
            orig,
            prefix.push("dev-dependencies"@),
            led,
            d,
        ),
        (None, None) => true,
        _ => false,
    }
    &&& match (rkt.build_dependencies, kt.build_dependencies) {
        (Some(res), Some(orig)) => entries_shape(res, orig) && entries_second_noop(
            res,
            orig,
            prefix.push("build-dependencies"@),
            led,
            d,
        ),
        (None, None) => true,
        _ => false,
    }
}

/// One full run over a section's three tables leaves every declaration
/// in a state a stable decision no longer changes.
proof fn lemma_kind_idempotent(
    cur: KindTablesV,
    prefix: Seq<Seq<char>>,
    led: LedgerImage,
    d: spec_fn(InputV) -> OutcomeV,
    outs: Seq<OutcomeV>,
)
    requires
        kind_wf(cur),
        decision_stable(d),
        outs.len() >= records_kind_tables(cur, prefix, led).len(),
        forall|k: int|
            0 <= k < records_kind_tables(cur, prefix, led).len() ==> outs[k] == d(
                #[trigger] records_kind_tables(cur, prefix, led)[k],
            ),
    ensures
        ({
            let r = apply_kind_tables(cur, prefix, led, outs, false);
            &&& kind_second_noop(r.0, cur, prefix, r.1, d)
            &&& forall|p: Seq<Seq<char>>|
                !kind_decl_path(cur, prefix, p) ==> #[trigger] led_agree(led, r.1, p)
        }),
{
    lemma_segment_literals();
    let pd = prefix.push("dependencies"@);
    let pv = prefix.push("dev-dependencies"@);
    let pb = prefix.push("build-dependencies"@);
    let ra = crate::engine::records_one_kind(cur.dependencies, prefix, "dependencies"@, led);
    let rb = crate::engine::records_one_kind(cur.dev_dependencies, prefix, "dev-dependencies"@, led);
    let rs = records_kind_tables(cur, prefix, led);
    let dstage = apply_one_kind(cur.dependencies, prefix, "dependencies"@, led, outs, false);
    let vstage = apply_one_kind(
        cur.dev_dependencies,
        prefix,
        "dev-dependencies"@,
        dstage.1,
        outs.skip(dstage.3 as int),
        false,
    );
    let bstage = apply_one_kind(
        cur.build_dependencies,
        prefix,
        "build-dependencies"@,
        vstage.1,
        outs.skip(dstage.3 + vstage.3 as int),
        false,
    );
    let r = apply_kind_tables(cur, prefix, led, outs, false);
    assert(r.1 == bstage.1);
    // first table
    match cur.dependencies {
        Some(orig) => {
            assert forall|k: int| 0 <= k < records_deps(orig, pd, led).len() implies outs[k]
                == d(#[trigger] records_deps(orig, pd, led)[k]) by {
                assert(rs[k] == ra[k]);
            }
            lemma_table_idempotent(orig, pd, led, d, outs);
            lemma_deps_footprint(orig, pd, led, outs, false);
            lemma_apply_deps_used(orig, pd, led, outs, false);
        },
        None => {},
    }
    assert(dstage.3 == ra.len()) by {
        match cur.dependencies {
            Some(orig) => {},
            None => {},
        }
    }
    // second table
    match cur.dev_dependencies {
        Some(orig) => {
            assert forall|i: int|
                0 <= i < orig.len() && !((#[trigger] orig[i]).value is Other) implies led_agree(
                led,
                dstage.1,
                pv.push(orig[i].name),
            ) by {
                let q = pv.push(orig[i].name);
                match cur.dependencies {
                    Some(od) => {
                        assert(!is_decl_path(od, pd, q)) by {
                            if is_decl_path(od, pd, q) {
                                lemma_decl_path_prefix(od, pd, q);
                                assert(q.drop_last() =~= pv);
                                assert(pd.last() == "dependencies"@);
                                assert(pv.last() == "dev-dependencies"@);
                            }
                        }
                    },
                    None => {},
                }
            }
            lemma_records_deps_agree(orig, pv, led, dstage.1);
            assert forall|k: int|
                0 <= k < records_deps(orig, pv, dstage.1).len() implies outs.skip(
                dstage.3 as int,
            )[k] == d(#[trigger] records_deps(orig, pv, dstage.1)[k]) by {
                assert(records_deps(orig, pv, dstage.1)[k] == records_deps(orig, pv, led)[k]);
                assert(rs[ra.len() + k] == rb[k]);
                assert(outs.skip(dstage.3 as int)[k] == outs[dstage.3 + k]);
            }
            lemma_table_idempotent(orig, pv, dstage.1, d, outs.skip(dstage.3 as int));
            lemma_deps_footprint(orig, pv, dstage.1, outs.skip(dstage.3 as int), false);
            lemma_apply_deps_used(orig, pv, dstage.1, outs.skip(dstage.3 as int), false);
            lemma_records_deps_led(orig, pv, dstage.1, led);
        },
        None => {},
    }
    assert(vstage.3 == rb.len()) by {
        match cur.dev_dependencies {
            Some(orig) => {},
            None => {},
        }
    }
    // third table
    match cur.build_dependencies {
        Some(orig) => {
            assert forall|i: int|
                0 <= i < orig.len() && !((#[trigger] orig[i]).value is Other) implies led_agree(
                led,
                vstage.1,
                pb.push(orig[i].name),
            ) by {
                let q = pb.push(orig[i].name);
                match cur.dependencies {
                    Some(od) => {
                        assert(!is_decl_path(od, pd, q)) by {
                            if is_decl_path(od, pd, q) {
                                lemma_decl_path_prefix(od, pd, q);
                                assert(q.drop_last() =~= pb);
                                assert(pd.last() == "dependencies"@);
                                assert(pb.last() == "build-dependencies"@);
                            }
                        }
                    },
                    None => {},
                }
                match cur.dev_dependencies {
                    Some(od) => {
                        assert(!is_decl_path(od, pv, q)) by {
                            if is_decl_path(od, pv, q) {
                                lemma_decl_path_prefix(od, pv, q);
                                assert(q.drop_last() =~= pb);
                                assert(pv.last() == "dev-dependencies"@);
                                assert(pb.last() == "build-dependencies"@);
                            }
                        }
                    },
                    None => {},
                }
                assert(led_agree(led, dstage.1, q));
                assert(led_agree(dstage.1, vstage.1, q));
            }
            lemma_records_deps_agree(orig, pb, led, vstage.1);
            assert forall|k: int|
                0 <= k < records_deps(orig, pb, vstage.1).len() implies outs.skip(
                dstage.3 + vstage.3 as int,
            )[k] == d(#[trigger] records_deps(orig, pb, vstage.1)[k]) by {
                assert(records_deps(orig, pb, vstage.1)[k] == records_deps(orig, pb, led)[k]);
                assert(rs[ra.len() + rb.len() + k] == crate::engine::records_one_kind(
                    cur.build_dependencies,
                    prefix,
                    "build-dependencies"@,
                    led,
                )[k]);
                assert(outs.skip(dstage.3 + vstage.3 as int)[k] == outs[dstage.3 + vstage.3 + k]);
            }
            lemma_table_idempotent(orig, pb, vstage.1, d, outs.skip(dstage.3 + vstage.3 as int));
            lemma_deps_footprint(orig, pb, vstage.1, outs.skip(dstage.3 + vstage.3 as int), false);
        },
        None => {},
    }
    // transport the first two tables' no-ops to the final image
    match cur.dependencies {
        Some(orig) => {
            let res = apply_deps(orig, pd, led, outs, false).entries;
            assert(r.0.dependencies == Some(res));
            assert forall|i: int|
                0 <= i < orig.len() && !((#[trigger] orig[i]).value is Other) implies led_agree(
                dstage.1,
                bstage.1,
                pd.push(orig[i].name),
            ) by {
                let q = pd.push(orig[i].name);
                match cur.dev_dependencies {
                    Some(od) => {
                        assert(!is_decl_path(od, pv, q)) by {
                            if is_decl_path(od, pv, q) {
                                lemma_decl_path_prefix(od, pv, q);
                                assert(q.drop_last() =~= pd);
                                assert(pd.last() == "dependencies"@);
                                assert(pv.last() == "dev-dependencies"@);
                            }
                        }
                    },
                    None => {},
                }
                match cur.build_dependencies {
                    Some(od) => {
                        assert(!is_decl_path(od, pb, q)) by {
                            if is_decl_path(od, pb, q) {
                                lemma_decl_path_prefix(od, pb, q);
                                assert(q.drop_last() =~= pd);
                                assert(pd.last() == "dependencies"@);
                                assert(pb.last() == "build-dependencies"@);
                            }
                        }
                    },
                    None => {},
                }
                assert(led_agree(dstage.1, vstage.1, q));
                assert(led_agree(vstage.1, bstage.1, q));
            }
            lemma_second_noop_agree(res, orig, pd, dstage.1, bstage.1, d);
        },
        None => {},
    }
    match cur.dev_dependencies {
        Some(orig) => {
            let res = apply_deps(orig, pv, dstage.1, outs.skip(dstage.3 as int), false).entries;
            assert(r.0.dev_dependencies == Some(res));
            assert forall|i: int|
                0 <= i < orig.len() && !((#[trigger] orig[i]).value is Other) implies led_agree(
                vstage.1,
                bstage.1,
                pv.push(orig[i].name),
            ) by {
                let q = pv.push(orig[i].name);
                match cur.build_dependencies {
                    Some(od) => {
                        assert(!is_decl_path(od, pb, q)) by {
                            if is_decl_path(od, pb, q) {
                                lemma_decl_path_prefix(od, pb, q);
                                assert(q.drop_last() =~= pv);
                                assert(pv.last() == "dev-dependencies"@);
                                assert(pb.last() == "build-dependencies"@);
                            }
                        }
                    },
                    None => {},
                }
                assert(led_agree(vstage.1, bstage.1, q));
            }
            lemma_second_noop_agree(res, orig, pv, vstage.1, bstage.1, d);
        },
        None => {},
    }
    assert forall|p: Seq<Seq<char>>|
        !kind_decl_path(cur, prefix, p) implies #[trigger] led_agree(led, r.1, p) by {
        assert(led_agree(led, dstage.1, p)) by {
            match cur.dependencies {
                Some(orig) => {
                    assert(!is_decl_path(orig, pd, p));
                },
                None => {},
            }
        }
        assert(led_agree(dstage.1, vstage.1, p)) by {
            match cur.dev_dependencies {
                Some(orig) => {
                    assert(!is_decl_path(orig, pv, p));
                },
                None => {},
            }
        }
        assert(led_agree(vstage.1, bstage.1, p)) by {
            match cur.build_dependencies {
                Some(orig) => {
                    assert(!is_decl_path(orig, pb, p));
                },
                None => {},
            }
        }
    }
}

/// Transporting a section's second-run no-ops along agreeing images.
proof fn lemma_kind_second_noop_agree(
    rkt: KindTablesV,
    kt: KindTablesV,
    prefix: Seq<Seq<char>>,
    l1: LedgerImage,
    l2: LedgerImage,
    d: spec_fn(InputV) -> OutcomeV,
)
    requires
        kind_second_noop(rkt, kt, prefix, l1, d),
        forall|p: Seq<Seq<char>>|
            kind_decl_path(kt, prefix, p) ==> #[trigger] led_agree(l1, l2, p),
    ensures
        kind_second_noop(rkt, kt, prefix, l2, d),
{
    match (rkt.dependencies, kt.dependencies) {
        (Some(res), Some(orig)) => {
            assert forall|i: int|
                0 <= i < orig.len() && !((#[trigger] orig[i]).value is Other) implies led_agree(
                l1,
                l2,
                prefix.push("dependencies"@).push(orig[i].name),
            ) by {
                assert(is_decl_path(orig, prefix.push("dependencies"@), prefix.push(
                    "dependencies"@,
                ).push(orig[i].name)));
            }
            lemma_second_noop_agree(res, orig, prefix.push("dependencies"@), l1, l2, d);
        },
        _ => {},
    }
    match (rkt.dev_dependencies, kt.dev_dependencies) {
        (Some(res), Some(orig)) => {
            assert forall|i: int|
                0 <= i < orig.len() && !((#[trigger] orig[i]).value is Other) implies led_agree(
                l1,
                l2,
                prefix.push("dev-dependencies"@).push(orig[i].name),
            ) by {
                assert(is_decl_path(orig, prefix.push("dev-dependencies"@), prefix.push(
                    "dev-dependencies"@,
                ).push(orig[i].name)));
            }
            lemma_second_noop_agree(res, orig, prefix.push("dev-dependencies"@), l1, l2, d);
        },
        _ => {},
    }
    match (rkt.build_dependencies, kt.build_dependencies) {
        (Some(res), Some(orig)) => {
            assert forall|i: int|
                0 <= i < orig.len() && !((#[trigger] orig[i]).value is Other) implies led_agree(
                l1,
                l2,
                prefix.push("build-dependencies"@).push(orig[i].name),
            ) by {
                assert(is_decl_path(orig, prefix.push("build-dependencies"@), prefix.push(
                    "build-dependencies"@,
                ).push(orig[i].name)));
            }
            lemma_second_noop_agree(res, orig, prefix.push("build-dependencies"@), l1, l2, d);
        },
        _ => {},
    }
}

/// The second-run records under the targets all draw no-ops.
pub open spec fn targets_second_noop(
    rts: Seq<TargetBlockV>,
    ts: Seq<TargetBlockV>,
    prefix: Seq<Seq<char>>,
    led: LedgerImage,
    d: spec_fn(InputV) -> OutcomeV,
) -> bool {
    &&& rts.len() == ts.len()
    &&& forall|k: int| 0 <= k < ts.len() ==> (#[trigger] rts[k]).cfg == ts[k].cfg
    &&& forall|k: int|
        0 <= k < ts.len() ==> kind_second_noop(
            (#[trigger] rts[k]).tables,
            ts[k].tables,
            prefix.push("target"@).push(ts[k].cfg),
            led,
            d,
        )
}

/// One full run over the targets leaves every declaration in a state a
/// stable decision no longer changes.
proof fn lemma_targets_idempotent(
    ts: Seq<TargetBlockV>,
    prefix: Seq<Seq<char>>,
    led: LedgerImage,
    d: spec_fn(InputV) -> OutcomeV,
    outs: Seq<OutcomeV>,
)
    requires
        targets_wf(ts),
        decision_stable(d),
        outs.len() >= records_targets(ts, prefix, led).len(),
        forall|k: int|
            0 <= k < records_targets(ts, prefix, led).len() ==> outs[k] == d(
                #[trigger] records_targets(ts, prefix, led)[k],
            ),
    ensures
        ({
            let r = apply_targets(ts, prefix, led, outs, false);
            &&& targets_second_noop(r.0, ts, prefix, r.1, d)
            &&& forall|p: Seq<Seq<char>>|
                !targets_decl_path(ts, prefix, p) ==> #[trigger] led_agree(led, r.1, p)
        }),
    decreases ts.len(),
{
    let r = apply_targets(ts, prefix, led, outs, false);
    let rs = records_targets(ts, prefix, led);
    if ts.len() == 0 {
        assert forall|p: Seq<Seq<char>>|
            !targets_decl_path(ts, prefix, p) implies #[trigger] led_agree(led, r.1, p) by {}
    } else {
        let p20 = prefix.push("target"@).push(ts[0].cfg);
        let r0 = apply_kind_tables(ts[0].tables, p20, led, outs, false);
        let rk = records_kind_tables(ts[0].tables, p20, led);
        assert forall|k: int| 0 <= k < rk.len() implies outs[k] == d(#[trigger] rk[k]) by {
            assert(rs[k] == rk[k]);
        }
        lemma_kind_idempotent(ts[0].tables, p20, led, d, outs);
        crate::engine::lemma_apply_kind_used(ts[0].tables, p20, led, outs, false);
        assert(r0.3 == rk.len());
        assert(targets_wf(ts.drop_first())) by {
            assert forall|k: int|
                0 <= k < ts.drop_first().len() implies kind_wf(
                (#[trigger] ts.drop_first()[k]).tables,
            ) by {
                assert(ts.drop_first()[k] == ts[k + 1]);
            }
            assert forall|i: int, j: int|
                0 <= i < j < ts.drop_first().len() implies (#[trigger] ts.drop_first()[i]).cfg
                != (#[trigger] ts.drop_first()[j]).cfg by {
                assert(ts.drop_first()[i] == ts[i + 1]);
                assert(ts.drop_first()[j] == ts[j + 1]);
            }
        }
        // the rest's records and paths are untouched by the head block
        assert forall|k2: int, p: Seq<Seq<char>>|
            0 <= k2 < ts.drop_first().len() && kind_decl_path(
                (#[trigger] ts.drop_first()[k2]).tables,
                prefix.push("target"@).push(ts.drop_first()[k2].cfg),
                p,
            ) implies #[trigger] led_agree(led, r0.1, p) by {
            assert(ts.drop_first()[k2] == ts[k2 + 1]);
            let p2k = prefix.push("target"@).push(ts[k2 + 1].cfg);
            assert(!kind_decl_path(ts[0].tables, p20, p)) by {
                if kind_decl_path(ts[0].tables, p20, p) {
                    lemma_kind_path_shape(ts[0].tables, p20, p);
                    lemma_kind_path_shape(ts[k2 + 1].tables, p2k, p);
                    assert(p20 == p2k);
                    assert(p20.last() == ts[0].cfg);
                    assert(p2k.last() == ts[k2 + 1].cfg);
                }
            }
        }
        assert forall|k2: int|
            0 <= k2 < ts.drop_first().len() implies records_kind_tables(
            (#[trigger] ts.drop_first()[k2]).tables,
            prefix.push("target"@).push(ts.drop_first()[k2].cfg),
            r0.1,
        ) == records_kind_tables(
            ts.drop_first()[k2].tables,
            prefix.push("target"@).push(ts.drop_first()[k2].cfg),
            led,
        ) by {
            assert(ts.drop_first()[k2] == ts[k2 + 1]);
            let p2k = prefix.push("target"@).push(ts[k2 + 1].cfg);
            assert forall|p: Seq<Seq<char>>|
                kind_decl_path(ts[k2 + 1].tables, p2k, p) implies #[trigger] led_agree(
                led,
                r0.1,
                p,
            ) by {
                assert(kind_decl_path(ts.drop_first()[k2].tables, p2k, p));
            }
            lemma_records_kind_agree(ts[k2 + 1].tables, p2k, led, r0.1);
        }
        lemma_records_targets_same(ts.drop_first(), prefix, led, r0.1);
        assert forall|k: int|
            0 <= k < records_targets(ts.drop_first(), prefix, r0.1).len() implies outs.skip(
            r0.3 as int,
        )[k] == d(#[trigger] records_targets(ts.drop_first(), prefix, r0.1)[k]) by {
            assert(records_targets(ts.drop_first(), prefix, r0.1)[k] == records_targets(
                ts.drop_first(),
                prefix,
                led,
            )[k]);
            assert(rs[rk.len() + k] == records_targets(ts.drop_first(), prefix, led)[k]);
            assert(outs.skip(r0.3 as int)[k] == outs[r0.3 + k]);
        }
        lemma_targets_idempotent(ts.drop_first(), prefix, r0.1, d, outs.skip(r0.3 as int));
        let rrest = apply_targets(ts.drop_first(), prefix, r0.1, outs.skip(r0.3 as int), false);
        assert(r.0 == seq![TargetBlockV { cfg: ts[0].cfg, tables: r0.0 }] + rrest.0);
        assert(r.1 == rrest.1);
        // the head block's no-ops survive the rest
        assert forall|p: Seq<Seq<char>>|
            kind_decl_path(ts[0].tables, p20, p) implies #[trigger] led_agree(
            r0.1,
            rrest.1,
            p,
        ) by {
            assert(!targets_decl_path(ts.drop_first(), prefix, p)) by {
                if targets_decl_path(ts.drop_first(), prefix, p) {
                    let k2 = choose|k2: int|
                        0 <= k2 < ts.drop_first().len() && kind_decl_path(
                            (#[trigger] ts.drop_first()[k2]).tables,
                            prefix.push("target"@).push(ts.drop_first()[k2].cfg),
                            p,
                        );
                    assert(ts.drop_first()[k2] == ts[k2 + 1]);
                    let p2k = prefix.push("target"@).push(ts[k2 + 1].cfg);
                    lemma_kind_path_shape(ts[0].tables, p20, p);
                    lemma_kind_path_shape(ts[k2 + 1].tables, p2k, p);
                    assert(p20 == p2k);
                    assert(p20.last() == ts[0].cfg);
                    assert(p2k.last() == ts[k2 + 1].cfg);
                }
            }
        }
        assert(targets_second_noop(r.0, ts, prefix, r.1, d)) by {
            assert forall|k: int|
                0 <= k < ts.len() implies (#[trigger] r.0[k]).cfg == ts[k].cfg
                && kind_second_noop(
                r.0[k].tables,
                ts[k].tables,
                prefix.push("target"@).push(ts[k].cfg),
                r.1,
                d,
            ) by {
                if k == 0 {
                    assert(r.0[0].tables == r0.0);
                    lemma_kind_second_noop_agree(r0.0, ts[0].tables, p20, r0.1, rrest.1, d);
                } else {
                    assert(r.0[k] == rrest.0[k - 1]);
                    assert(ts.drop_first()[k - 1] == ts[k]);
                }
            }
        }
        assert forall|p: Seq<Seq<char>>|
            !targets_decl_path(ts, prefix, p) implies #[trigger] led_agree(led, r.1, p) by {
            assert(!kind_decl_path(ts[0].tables, p20, p)) by {
                if kind_decl_path(ts[0].tables, p20, p) {
                    assert(targets_decl_path(ts, prefix, p));
                }
            }
            assert(led_agree(led, r0.1, p));
            assert(!targets_decl_path(ts.drop_first(), prefix, p)) by {
                if targets_decl_path(ts.drop_first(), prefix, p) {
                    let k2 = choose|k2: int|
                        0 <= k2 < ts.drop_first().len() && kind_decl_path(
                            (#[trigger] ts.drop_first()[k2]).tables,
                            prefix.push("target"@).push(ts.drop_first()[k2].cfg),
                            p,
                        );
                    assert(ts.drop_first()[k2] == ts[k2 + 1]);
                }
            }
            assert(led_agree(r0.1, r.1, p));
        }
    }
}

/// One full run over a section leaves every declaration in a state a
/// stable decision no longer changes.
proof fn lemma_sections_idempotent(
    sec: SectionsV,
    prefix: Seq<Seq<char>>,
    led: LedgerImage,
    d: spec_fn(InputV) -> OutcomeV,
    outs: Seq<OutcomeV>,
)
    requires
        sections_wf(sec),
        decision_stable(d),
        outs.len() >= records_sections(sec, prefix, led).len(),
        forall|k: int|
            0 <= k < records_sections(sec, prefix, led).len() ==> outs[k] == d(
                #[trigger] records_sections(sec, prefix, led)[k],
            ),
    ensures
        ({
            let r = apply_sections(sec, prefix, led, outs, false);
            &&& kind_second_noop(r.0.tables, sec.tables, prefix, r.1, d)
            &&& targets_second_noop(r.0.targets, sec.targets, prefix, r.1, d)
            &&& forall|p: Seq<Seq<char>>|
                !sections_decl_path(sec, prefix, p) ==> #[trigger] led_agree(led, r.1, p)
        }),
{
    let r = apply_sections(sec, prefix, led, outs, false);
    let k = apply_kind_tables(sec.tables, prefix, led, outs, false);
    let t = apply_targets(sec.targets, prefix, k.1, outs.skip(k.3 as int), false);
    let ra = records_kind_tables(sec.tables, prefix, led);
    let rt = records_targets(sec.targets, prefix, led);
    let rs = records_sections(sec, prefix, led);
    assert forall|k2: int| 0 <= k2 < ra.len() implies outs[k2] == d(#[trigger] ra[k2]) by {
        assert(rs[k2] == ra[k2]);
    }
    lemma_kind_idempotent(sec.tables, prefix, led, d, outs);
    crate::engine::lemma_apply_kind_used(sec.tables, prefix, led, outs, false);
    assert(k.3 == ra.len());
    // the targets' records and paths are untouched by the root tables
    assert forall|k2: int, p: Seq<Seq<char>>|
        0 <= k2 < sec.targets.len() && kind_decl_path(
            (#[trigger] sec.targets[k2]).tables,
            prefix.push("target"@).push(sec.targets[k2].cfg),
            p,
        ) implies #[trigger] led_agree(led, k.1, p) by {
        let p2 = prefix.push("target"@).push(sec.targets[k2].cfg);
        assert(!kind_decl_path(sec.tables, prefix, p)) by {
            if kind_decl_path(sec.tables, prefix, p) {
                lemma_kind_path_shape(sec.tables, prefix, p);
                lemma_kind_path_shape(sec.targets[k2].tables, p2, p);
            }
        }
    }
    assert forall|k2: int|
        0 <= k2 < sec.targets.len() implies records_kind_tables(
        (#[trigger] sec.targets[k2]).tables,
        prefix.push("target"@).push(sec.targets[k2].cfg),
        k.1,
    ) == records_kind_tables(
        sec.targets[k2].tables,
        prefix.push("target"@).push(sec.targets[k2].cfg),
        led,
    ) by {
        let p2 = prefix.push("target"@).push(sec.targets[k2].cfg);
        lemma_records_kind_agree(sec.targets[k2].tables, p2, led, k.1);
    }
    lemma_records_targets_same(sec.targets, prefix, led, k.1);
    assert forall|k2: int|
        0 <= k2 < records_targets(sec.targets, prefix, k.1).len() implies outs.skip(k.3 as int)[
        k2
    ] == d(#[trigger] records_targets(sec.targets, prefix, k.1)[k2]) by {
        assert(records_targets(sec.targets, prefix, k.1)[k2] == rt[k2]);
        assert(rs[ra.len() + k2] == rt[k2]);
        assert(outs.skip(k.3 as int)[k2] == outs[k.3 + k2]);
    }
    lemma_targets_idempotent(sec.targets, prefix, k.1, d, outs.skip(k.3 as int));
    assert(r.0.tables == k.0);
    assert(r.0.targets == t.0);
    assert(r.1 == t.1);
    // the root tables' no-ops survive the targets
    assert forall|p: Seq<Seq<char>>|
        kind_decl_path(sec.tables, prefix, p) implies #[trigger] led_agree(k.1, t.1, p) by {
        assert(!targets_decl_path(sec.targets, prefix, p)) by {
            if targets_decl_path(sec.targets, prefix, p) {
                lemma_targets_path_shape(sec.targets, prefix, p);
                lemma_kind_path_shape(sec.tables, prefix, p);
            }
        }
    }
    lemma_kind_second_noop_agree(k.0, sec.tables, prefix, k.1, t.1, d);
    assert forall|p: Seq<Seq<char>>|
        !sections_decl_path(sec, prefix, p) implies #[trigger] led_agree(led, r.1, p) by {
        assert(led_agree(led, k.1, p));
        assert(led_agree(k.1, t.1, p));
    }
}

/// From a processed section's per-declaration no-ops to per-record ones.
proof fn lemma_records_kind_noop(
    rkt: KindTablesV,
    kt: KindTablesV,
    prefix: Seq<Seq<char>>,
    led: LedgerImage,
    d: spec_fn(InputV) -> OutcomeV,
)
    requires
        kind_second_noop(rkt, kt, prefix, led, d),
    ensures
        forall|k: int|
            0 <= k < records_kind_tables(rkt, prefix, led).len() ==> noop_outcome(
                d(#[trigger] records_kind_tables(rkt, prefix, led)[k]),
                records_kind_tables(rkt, prefix, led)[k],
            ),
{
    let ra = crate::engine::records_one_kind(rkt.dependencies, prefix, "dependencies"@, led);
    let rb = crate::engine::records_one_kind(rkt.dev_dependencies, prefix, "dev-dependencies"@, led);
    let rc = crate::engine::records_one_kind(
        rkt.build_dependencies,
        prefix,
        "build-dependencies"@,
        led,
    );
    match (rkt.dependencies, kt.dependencies) {
        (Some(res), Some(orig)) => {
            lemma_entries_noop_records(res, orig, prefix.push("dependencies"@), led, d);
        },
        _ => {},
    }
    match (rkt.dev_dependencies, kt.dev_dependencies) {
        (Some(res), Some(orig)) => {
            lemma_entries_noop_records(res, orig, prefix.push("dev-dependencies"@), led, d);
        },
        _ => {},
    }
    match (rkt.build_dependencies, kt.build_dependencies) {
        (Some(res), Some(orig)) => {
            lemma_entries_noop_records(res, orig, prefix.push("build-dependencies"@), led, d);
        },
        _ => {},
    }
    assert forall|k: int|
        0 <= k < records_kind_tables(rkt, prefix, led).len() implies noop_outcome(
        d(#[trigger] records_kind_tables(rkt, prefix, led)[k]),
        records_kind_tables(rkt, prefix, led)[k],
    ) by {
        if k < ra.len() {
            assert(records_kind_tables(rkt, prefix, led)[k] == ra[k]);
        } else if k < ra.len() + rb.len() {
            assert(records_kind_tables(rkt, prefix, led)[k] == rb[k - ra.len()]);
        } else {
            assert(records_kind_tables(rkt, prefix, led)[k] == rc[k - ra.len() - rb.len()]);
        }
    }
}

/// From a processed table's per-declaration no-ops to per-record ones.
proof fn lemma_entries_noop_records(
    res: Seq<DepEntryV>,
    orig: Seq<DepEntryV>,
    prefix: Seq<Seq<char>>,
    led: LedgerImage,
    d: spec_fn(InputV) -> OutcomeV,
)
    requires
        entries_shape(res, orig),
        entries_second_noop(res, orig, prefix, led, d),
    ensures
        forall|k: int|
            0 <= k < records_deps(res, prefix, led).len() ==> noop_outcome(
                d(#[trigger] records_deps(res, prefix, led)[k]),
                records_deps(res, prefix, led)[k],
            ),
{
    assert forall|i: int|
        0 <= i < res.len() && in_pass((#[trigger] res[i]).value, true) implies noop_outcome(
        d(record_v(prefix.push(res[i].name), res[i].name, res[i].value, led)),
        record_v(prefix.push(res[i].name), res[i].name, res[i].value, led),
    ) by {
        assert(!(orig[i].value is Other)) by {
            if orig[i].value is Other {
                assert(res[i] == orig[i]);
            }
        }
        assert(res[i].name == orig[i].name);
    }
    assert forall|i: int|
        0 <= i < res.len() && in_pass((#[trigger] res[i]).value, false) implies noop_outcome(
        d(record_v(prefix.push(res[i].name), res[i].name, res[i].value, led)),
        record_v(prefix.push(res[i].name), res[i].name, res[i].value, led),
    ) by {
        assert(!(orig[i].value is Other)) by {
            if orig[i].value is Other {
                assert(res[i] == orig[i]);
            }
        }
        assert(res[i].name == orig[i].name);
    }
    lemma_records_sel_noop(res, prefix, led, d, true);
    lemma_records_sel_noop(res, prefix, led, d, false);
    let rsa = records_sel(res, prefix, led, true);
    let rsb = records_sel(res, prefix, led, false);
    assert forall|k: int|
        0 <= k < records_deps(res, prefix, led).len() implies noop_outcome(
        d(#[trigger] records_deps(res, prefix, led)[k]),
        records_deps(res, prefix, led)[k],
    ) by {
        if k < rsa.len() {
            assert(records_deps(res, prefix, led)[k] == rsa[k]);
        } else {
            assert(records_deps(res, prefix, led)[k] == rsb[k - rsa.len()]);
        }
    }
}

/// From the targets' per-declaration no-ops to per-record ones.
proof fn lemma_records_targets_noop(
    rts: Seq<TargetBlockV>,
    ts: Seq<TargetBlockV>,
    prefix: Seq<Seq<char>>,
    led: LedgerImage,
    d: spec_fn(InputV) -> OutcomeV,
)
    requires
        targets_second_noop(rts, ts, prefix, led, d),
    ensures
        forall|k: int|
            0 <= k < records_targets(rts, prefix, led).len() ==> noop_outcome(
                d(#[trigger] records_targets(rts, prefix, led)[k]),
                records_targets(rts, prefix, led)[k],
            ),
    decreases rts.len(),
{
    if rts.len() > 0 {
        lemma_records_kind_noop(
            rts[0].tables,
            ts[0].tables,
            prefix.push("target"@).push(rts[0].cfg),
            led,
            d,
        );
        assert(targets_second_noop(rts.drop_first(), ts.drop_first(), prefix, led, d)) by {
            assert forall|k: int|
                0 <= k < ts.drop_first().len() implies (#[trigger] rts.drop_first()[k]).cfg
                == ts.drop_first()[k].cfg && kind_second_noop(
                rts.drop_first()[k].tables,
                ts.drop_first()[k].tables,
                prefix.push("target"@).push(ts.drop_first()[k].cfg),
                led,
                d,
            ) by {
                assert(rts.drop_first()[k] == rts[k + 1]);
                assert(ts.drop_first()[k] == ts[k + 1]);
            }
        }
        lemma_records_targets_noop(rts.drop_first(), ts.drop_first(), prefix, led, d);
        let rk = records_kind_tables(rts[0].tables, prefix.push("target"@).push(rts[0].cfg), led);
        assert forall|k: int|
            0 <= k < records_targets(rts, prefix, led).len() implies noop_outcome(
            d(#[trigger] records_targets(rts, prefix, led)[k]),
            records_targets(rts, prefix, led)[k],
        ) by {
            if k < rk.len() {
                assert(records_targets(rts, prefix, led)[k] == rk[k]);
            } else {
                assert(records_targets(rts, prefix, led)[k] == records_targets(
                    rts.drop_first(),
                    prefix,
                    led,
                )[k - rk.len()]);
            }
        }
    }
}

/// Idempotence, whole manifest: run a decision that reads only name,
/// package and original source over a whole manifest; feeding the same
/// decision the records of the result changes nothing — same manifest,
/// no edits.
pub proof fn law_patch_idempotent(m: ManifestV, d: spec_fn(InputV) -> OutcomeV)
    requires
        !(m.ledger is Malformed),
        manifest_wf_for_laws(m),
        decision_stable(d),
    ensures
        ({
            let outs1 = manifest_records(m).map_values(d);
            let m1 = apply_manifest_v(m, outs1, false).0;
            let outs2 = manifest_records(m1).map_values(d);
            &&& apply_manifest_v(m1, outs2, false).0 == m1
            &&& apply_manifest_v(m1, outs2, false).1 == Seq::<crate::engine::EditV>::empty()
        }),
{
    lemma_segment_literals();
    let led0 = initial_ledger_map(m.ledger);
    let wsp: Seq<Seq<char>> = seq!["workspace"@];
    let outs1 = manifest_records(m).map_values(d);
    let m1 = apply_manifest_v(m, outs1, false).0;
    let rsr = records_sections(m.root, seq![], led0);
    let r = apply_sections(m.root, seq![], led0, outs1, false);
    assert forall|k: int| 0 <= k < rsr.len() implies outs1[k] == d(#[trigger] rsr[k]) by {
        assert(manifest_records(m)[k] == rsr[k]);
    }
    lemma_sections_idempotent(m.root, seq![], led0, d, outs1);
    crate::engine::lemma_apply_sections_used(m.root, seq![], led0, outs1, false);
    assert(r.3 == rsr.len());
    match m.workspace {
        Some(w) => {
            assert forall|p: Seq<Seq<char>>|
                sections_decl_path(w, wsp, p) implies #[trigger] led_agree(led0, r.1, p) by {
                assert(!sections_decl_path(m.root, seq![], p)) by {
                    if sections_decl_path(m.root, seq![], p) {
                        lemma_sections_path_first(m.root, seq![], p);
                        lemma_sections_path_first(w, wsp, p);
                        assert(p[0] == "workspace"@);
                    }
                }
            }
            lemma_records_sections_same(w, wsp, led0, r.1);
            assert forall|k: int|
                0 <= k < records_sections(w, wsp, r.1).len() implies outs1.skip(r.3 as int)[k]
                == d(#[trigger] records_sections(w, wsp, r.1)[k]) by {
                assert(records_sections(w, wsp, r.1)[k] == records_sections(w, wsp, led0)[k]);
                assert(manifest_records(m)[rsr.len() + k] == records_sections(w, wsp, led0)[k]);
                assert(outs1.skip(r.3 as int)[k] == outs1[r.3 + k]);
            }
            lemma_sections_idempotent(w, wsp, r.1, d, outs1.skip(r.3 as int));
            let q = apply_sections(w, wsp, r.1, outs1.skip(r.3 as int), false);
            // the root's no-ops survive the workspace run
            assert forall|p: Seq<Seq<char>>|
                sections_decl_path(m.root, seq![], p) implies #[trigger] led_agree(
                r.1,
                q.1,
                p,
            ) by {
                assert(!sections_decl_path(w, wsp, p)) by {
                    if sections_decl_path(w, wsp, p) {
                        lemma_sections_path_first(m.root, seq![], p);
                        lemma_sections_path_first(w, wsp, p);
                        assert(p[0] == "workspace"@);
                    }
                }
            }
            assert forall|p: Seq<Seq<char>>|
                kind_decl_path(m.root.tables, seq![], p) implies #[trigger] led_agree(
                r.1,
                q.1,
                p,
            ) by {
                assert(sections_decl_path(m.root, seq![], p));
            }
            lemma_kind_second_noop_agree(r.0.tables, m.root.tables, seq![], r.1, q.1, d);
            assert forall|k: int|
                0 <= k < m.root.targets.len() implies kind_second_noop(
                (#[trigger] r.0.targets[k]).tables,
                m.root.targets[k].tables,
                seq![].push("target"@).push(m.root.targets[k].cfg),
                q.1,
                d,
            ) by {
                let p2 = seq![].push("target"@).push(m.root.targets[k].cfg);
                assert forall|p: Seq<Seq<char>>|
                    kind_decl_path(m.root.targets[k].tables, p2, p) implies #[trigger] led_agree(
                    r.1,
                    q.1,
                    p,
                ) by {
                    assert(targets_decl_path(m.root.targets, seq![], p));
                    assert(sections_decl_path(m.root, seq![], p));
                }
                lemma_kind_second_noop_agree(
                    r.0.targets[k].tables,
                    m.root.targets[k].tables,
                    p2,
                    r.1,
                    q.1,
                    d,
                );
            }
            assert(m1.root == r.0);
            assert(m1.workspace == Some(q.0));
            assert(initial_ledger_map(m1.ledger) == q.1) by {
                match m.ledger {
                    LedgerV::Present(_) => {},
                    _ => {},
                }
            }
            // every record of the processed manifest draws a no-op
            lemma_records_kind_noop(r.0.tables, m.root.tables, seq![], q.1, d);
            assert(targets_second_noop(r.0.targets, m.root.targets, seq![], q.1, d));
            lemma_records_targets_noop(r.0.targets, m.root.targets, seq![], q.1, d);
            lemma_records_kind_noop(q.0.tables, w.tables, wsp, q.1, d);
            lemma_records_targets_noop(q.0.targets, w.targets, wsp, q.1, d);
            let outs2 = manifest_records(m1).map_values(d);
            assert forall|k: int|
                0 <= k < manifest_records(m1).len() implies noop_outcome(
                outs2[k],
                #[trigger] manifest_records(m1)[k],
            ) by {
                assert(outs2[k] == d(manifest_records(m1)[k]));
                let rr = records_sections(m1.root, seq![], q.1);
                let rw = records_sections(m1.workspace->0, wsp, q.1);
                let rka = records_kind_tables(m1.root.tables, seq![], q.1);
                let rkw = records_kind_tables(m1.workspace->0.tables, wsp, q.1);
                if k < rr.len() {
                    assert(manifest_records(m1)[k] == rr[k]);
                    if k < rka.len() {
                        assert(rr[k] == rka[k]);
                    } else {
                        assert(rr[k] == records_targets(m1.root.targets, seq![], q.1)[
                            k - rka.len()
                        ]);
                    }
                } else {
                    assert(manifest_records(m1)[k] == rw[k - rr.len()]);
                    if k - rr.len() < rkw.len() {
                        assert(rw[k - rr.len()] == rkw[k - rr.len()]);
                    } else {
                        assert(rw[k - rr.len()] == records_targets(
                            m1.workspace->0.targets,
                            wsp,
                            q.1,
                        )[k - rr.len() - rkw.len()]);
                    }
                }
            }
            lemma_noop_manifest(m1, outs2);
        },
        None => {
            assert(m1.root == r.0);
            assert(m1.workspace is None);
            assert(initial_ledger_map(m1.ledger) == r.1) by {
                match m.ledger {
                    LedgerV::Present(_) => {},
                    _ => {},
                }
            }
            lemma_records_kind_noop(r.0.tables, m.root.tables, seq![], r.1, d);
            lemma_records_targets_noop(r.0.targets, m.root.targets, seq![], r.1, d);
            let outs2 = manifest_records(m1).map_values(d);
            assert forall|k: int|
                0 <= k < manifest_records(m1).len() implies noop_outcome(
                outs2[k],
                #[trigger] manifest_records(m1)[k],
            ) by {
                assert(outs2[k] == d(manifest_records(m1)[k]));
                let rr = records_sections(m1.root, seq![], r.1);
                let rka = records_kind_tables(m1.root.tables, seq![], r.1);
                assert(manifest_records(m1)[k] == rr[k]);
                if k < rka.len() {
                    assert(rr[k] == rka[k]);
                } else {
                    assert(rr[k] == records_targets(m1.root.targets, seq![], r.1)[k - rka.len()]);
                }
            }
            lemma_noop_manifest(m1, outs2);
        },
    }
}

} // verus!