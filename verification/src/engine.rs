//! The document patch engine.
//!
//! A run over one manifest happens in two phases. [`collect_records`] lists
//! every dependency declaration as a [`DirectInput`] record, in visit
//! order: the three root tables, the same tables under each
//! platform-conditional target, and, for a workspace root, the same
//! structure again under `workspace`; inside one table, declarations
//! written as tables come before declarations written as bare version
//! strings. The caller decides one [`Outcome`] per record and
//! [`patch_manifest`] applies them in the same order, maintaining the
//! backup ledger and emitting the document edits that realize the change.
//!
//! The whole semantics is given by the spec functions in this module,
//! culminating in [`apply_manifest_v`]; every executable function is proved
//! to implement them exactly.

use vstd::prelude::*;
use vstd::pervasive::VecAdditionalExecFns;

use crate::ledger::{ledger_insert, ledger_lookup, ledger_remove};
use crate::util::{child_path, clone_key_path, vec_push_dv, vec_set_dv};
use crate::manifest::{
    DeclTableV, DepEntry, DepEntryV, DepValue, DepValueV, KindTables, KindTablesV, LedgerEntry,
    LedgerState, LedgerV, Manifest, ManifestV, Sections, SectionsV, TargetBlock, TargetBlockV,
    ledger_entries_wf, ledger_map, table_form_v,
};
use crate::source::{
    DirectInput, DirectSource, InputV, Outcome, OutcomeV, SourceV, is_version_only, opt_str_clone,
};

verus! {

/// The ledger seen as a map from declaration key path to the recorded
/// original source.
pub type LedgerImage = Map<Seq<Seq<char>>, SourceV>;

/// One targeted edit of the underlying document. Applying the emitted
/// edits, in order, to the document a manifest was read from realizes the
/// patched manifest while leaving every untouched byte alone.
#[derive(Debug)]
pub enum DocEdit {
    /// Overwrite the declaration at `path` with `value`: for a table form,
    /// set exactly the present source fields and remove the absent ones,
    /// keeping every unrelated key; for a version-string form, replace the
    /// declaration by the bare string. `inline` asks for the normalized
    /// inline-table layout.
    SetDecl { path: Vec<String>, value: DepValue, inline: bool },
    /// Reformat the untouched declaration at `path` as an inline table,
    /// collapsing it to a bare version string when `collapse` is set. Only
    /// emitted when the normalized layout was requested.
    FormatDecl { path: Vec<String>, collapse: bool },
    /// Write `original` at `path` of the ledger.
    SetLedger { path: Vec<String>, original: DirectSource },
    /// Delete the ledger entry at `path`.
    RemoveLedger { path: Vec<String> },
    /// Delete the whole ledger sub-tree.
    ClearLedger,
}

/// Mathematical image of a [`DocEdit`].
#[verifier::ext_equal]
pub enum EditV {
    SetDecl { path: Seq<Seq<char>>, value: DepValueV, inline: bool },
    FormatDecl { path: Seq<Seq<char>>, collapse: bool },
    SetLedger { path: Seq<Seq<char>>, original: SourceV },
    RemoveLedger { path: Seq<Seq<char>> },
    ClearLedger,
}

impl View for DocEdit {
    type V = EditV;

    open spec fn view(&self) -> EditV {
        match self {
            DocEdit::SetDecl { path, value, inline } => EditV::SetDecl {
                path: path.deep_view(),
                value: value@,
                inline: *inline,
            },
            DocEdit::FormatDecl { path, collapse } => EditV::FormatDecl {
                path: path.deep_view(),
                collapse: *collapse,
            },
            DocEdit::SetLedger { path, original } => EditV::SetLedger {
                path: path.deep_view(),
                original: original@,
            },
            DocEdit::RemoveLedger { path } => EditV::RemoveLedger { path: path.deep_view() },
            DocEdit::ClearLedger => EditV::ClearLedger,
        }
    }
}

impl DeepView for DocEdit {
    type V = EditV;

    open spec fn deep_view(&self) -> EditV {
        self@
    }
}

/// The package identity of a declaration: its explicit `package` field,
/// else the key it is declared under.
pub open spec fn pkg_of_v(name: Seq<char>, t: DeclTableV) -> Seq<char> {
    match t.package {
        Some(p) => p,
        None => name,
    }
}

/// Whether a declaration table is a bare version in disguise: no rename,
/// no unrelated keys, and a version-only source.
pub open spec fn collapsible_v(t: DeclTableV) -> bool {
    t.package is None && t.extra == 0 && is_version_only(t.source)
}

/// The key path of the backup entry for a declaration: the declaration's
/// own path with the final segment replaced by the package identity, so
/// that renaming a dependency does not orphan its backup.
pub open spec fn backup_path(path: Seq<Seq<char>>, pkg: Seq<char>) -> Seq<Seq<char>> {
    path.update(path.len() - 1, pkg)
}

/// The record a decision receives for the declaration `name = v` at
/// `path`, given the ledger image `led`: the original source is the
/// recorded one when a backup exists, else the live source itself.
pub open spec fn record_v(
    path: Seq<Seq<char>>,
    name: Seq<char>,
    v: DepValueV,
    led: LedgerImage,
) -> InputV {
    let t = table_form_v(v);
    InputV {
        name,
        package: pkg_of_v(name, t),
        source: t.source,
        original_source: if led.dom().contains(path) {
            led[path]
        } else {
            t.source
        },
    }
}

/// What one declaration step leaves behind: the new declaration value, the
/// ledger image after the step, and the document edits the step emits.
#[verifier::ext_equal]
pub struct StepV {
    pub value: DepValueV,
    pub led: LedgerImage,
    pub edits: Seq<EditV>,
}

/// A step whose outcome changes nothing: no mutation and no ledger
/// bookkeeping, whatever the ledger holds; under the normalized layout a
/// table-form declaration still gets a formatting edit.
pub open spec fn step_unchanged(
    path: Seq<Seq<char>>,
    v: DepValueV,
    led: LedgerImage,
    fi: bool,
) -> StepV {
    StepV {
        value: v,
        led,
        edits: if fi && v is TableForm {
            seq![EditV::FormatDecl { path, collapse: collapsible_v(table_form_v(v)) }]
        } else {
            seq![]
        },
    }
}

/// A step that replaces the live source with `s`, already known to differ
/// from it. Without a backup, one is created from the pre-change source,
/// keyed by package identity; with a backup that equals `s`, the
/// declaration has come back to its original and the backup is dropped.
/// The declaration is rewritten, collapsing to a bare version string when
/// nothing but a version remains.
pub open spec fn step_replace(
    path: Seq<Seq<char>>,
    name: Seq<char>,
    v: DepValueV,
    led: LedgerImage,
    s: SourceV,
    fi: bool,
) -> StepV {
    let t = table_form_v(v);
    let src = t.source;
    let pkg = pkg_of_v(name, t);
    let had = led.dom().contains(path);
    let orig = if had {
        led[path]
    } else {
        src
    };
    let newt = DeclTableV { package: t.package, source: s, extra: t.extra };
    let newv = if collapsible_v(newt) {
        DepValueV::VersionStr(s.version->0)
    } else {
        DepValueV::TableForm(newt)
    };
    let led2 = if !had {
        led.insert(backup_path(path, pkg), src)
    } else if orig == s {
        led.remove(path)
    } else {
        led
    };
    let ledger_edits: Seq<EditV> = if !had {
        seq![EditV::SetLedger { path: backup_path(path, pkg), original: src }]
    } else if orig == s {
        seq![EditV::RemoveLedger { path }]
    } else {
        seq![]
    };
    StepV {
        value: newv,
        led: led2,
        edits: ledger_edits + seq![EditV::SetDecl { path, value: newv, inline: fi }],
    }
}

/// One declaration processed against one outcome, exactly as the engine's
/// contract describes: no change and replace-with-the-same are no-ops,
/// anything else is a real replacement with its ledger bookkeeping.
pub open spec fn step_v(
    path: Seq<Seq<char>>,
    name: Seq<char>,
    v: DepValueV,
    led: LedgerImage,
    out: OutcomeV,
    fi: bool,
) -> StepV {
    match out {
        OutcomeV::Unchanged => step_unchanged(path, v, led, fi),
        OutcomeV::Replace(s) => if s == table_form_v(v).source {
            step_unchanged(path, v, led, fi)
        } else {
            step_replace(path, name, v, led, s, fi)
        },
    }
}

/// Whether a declaration value belongs to the current pass over a table:
/// first all declarations written as tables, then all written as bare
/// version strings. Other shapes are skipped entirely.
pub open spec fn in_pass(v: DepValueV, want_table: bool) -> bool {
    if want_table {
        v is TableForm
    } else {
        v is VersionStr
    }
}

/// The records of one pass over one dependency table, in entry order. The
/// ledger image is the one the run started from: what a backup records is
/// read before any outcome of the same run is applied.
pub open spec fn records_sel(
    entries: Seq<DepEntryV>,
    prefix: Seq<Seq<char>>,
    led: LedgerImage,
    want_table: bool,
) -> Seq<InputV>
    decreases entries.len(),
{
    if entries.len() == 0 {
        seq![]
    } else {
        let e = entries[0];
        let rest = records_sel(entries.drop_first(), prefix, led, want_table);
        if in_pass(e.value, want_table) {
            seq![record_v(prefix.push(e.name), e.name, e.value, led)] + rest
        } else {
            rest
        }
    }
}

/// What one pass over one dependency table leaves behind.
#[verifier::ext_equal]
pub struct PassV {
    pub entries: Seq<DepEntryV>,
    pub led: LedgerImage,
    pub edits: Seq<EditV>,
    pub used: nat,
}

/// One pass over one dependency table: each entry of the pass is stepped
/// against the next outcome, threading the ledger; entries outside the
/// pass are left as they are.
pub open spec fn apply_sel(
    entries: Seq<DepEntryV>,
    prefix: Seq<Seq<char>>,
    led: LedgerImage,
    outs: Seq<OutcomeV>,
    want_table: bool,
    fi: bool,
) -> PassV
    decreases entries.len(),
{
    if entries.len() == 0 {
        PassV { entries, led, edits: seq![], used: 0 }
    } else {
        let e = entries[0];
        if in_pass(e.value, want_table) {
            let st = step_v(prefix.push(e.name), e.name, e.value, led, outs[0], fi);
            let rest = apply_sel(
                entries.drop_first(),
                prefix,
                st.led,
                outs.drop_first(),
                want_table,
                fi,
            );
            PassV {
                entries: seq![DepEntryV { name: e.name, value: st.value }] + rest.entries,
                led: rest.led,
                edits: st.edits + rest.edits,
                used: rest.used + 1,
            }
        } else {
            let rest = apply_sel(entries.drop_first(), prefix, led, outs, want_table, fi);
            PassV {
                entries: seq![e] + rest.entries,
                led: rest.led,
                edits: rest.edits,
                used: rest.used,
            }
        }
    }
}

/// The records of one dependency table: table forms first, then bare
/// version strings.
pub open spec fn records_deps(
    entries: Seq<DepEntryV>,
    prefix: Seq<Seq<char>>,
    led: LedgerImage,
) -> Seq<InputV> {
    records_sel(entries, prefix, led, true) + records_sel(entries, prefix, led, false)
}

/// One dependency table fully processed: the table pass, then the string
/// pass. The first pass never turns another entry into a bare string and
/// the second only steps entries the first left alone, so both passes read
/// their entries in the original table.
pub open spec fn apply_deps(
    entries: Seq<DepEntryV>,
    prefix: Seq<Seq<char>>,
    led: LedgerImage,
    outs: Seq<OutcomeV>,
    fi: bool,
) -> PassV {
    let p1 = apply_sel(entries, prefix, led, outs, true, fi);
    let p2 = apply_sel(entries, prefix, p1.led, outs.skip(p1.used as int), false, fi);
    PassV {
        entries: Seq::new(
            entries.len(),
            |i: int|
                if entries[i].value is TableForm {
                    p1.entries[i]
                } else {
                    p2.entries[i]
                },
        ),
        led: p2.led,
        edits: p1.edits + p2.edits,
        used: p1.used + p2.used,
    }
}

/// One optional dependency table under `prefix + [kind]`.
pub open spec fn apply_one_kind(
    o: Option<Seq<DepEntryV>>,
    prefix: Seq<Seq<char>>,
    kind: Seq<char>,
    led: LedgerImage,
    outs: Seq<OutcomeV>,
    fi: bool,
) -> (Option<Seq<DepEntryV>>, LedgerImage, Seq<EditV>, nat) {
    match o {
        None => (None, led, seq![], 0),
        Some(es) => {
            let r = apply_deps(es, prefix.push(kind), led, outs, fi);
            (Some(r.entries), r.led, r.edits, r.used)
        },
    }
}

/// The records of one optional dependency table.
pub open spec fn records_one_kind(
    o: Option<Seq<DepEntryV>>,
    prefix: Seq<Seq<char>>,
    kind: Seq<char>,
    led: LedgerImage,
) -> Seq<InputV> {
    match o {
        None => seq![],
        Some(es) => records_deps(es, prefix.push(kind), led),
    }
}

/// The three dependency tables of one section, in their fixed order.
pub open spec fn apply_kind_tables(
    kt: KindTablesV,
    prefix: Seq<Seq<char>>,
    led: LedgerImage,
    outs: Seq<OutcomeV>,
    fi: bool,
) -> (KindTablesV, LedgerImage, Seq<EditV>, nat) {
    let d = apply_one_kind(kt.dependencies, prefix, "dependencies"@, led, outs, fi);
    let v = apply_one_kind(
        kt.dev_dependencies,
        prefix,
        "dev-dependencies"@,
        d.1,
        outs.skip(d.3 as int),
        fi,
    );
    let b = apply_one_kind(
        kt.build_dependencies,
        prefix,
        "build-dependencies"@,
        v.1,
        outs.skip(d.3 + v.3 as int),
        fi,
    );
    (
        KindTablesV {
            dependencies: d.0,
            dev_dependencies: v.0,
            build_dependencies: b.0,
        },
        b.1,
        d.2 + v.2 + b.2,
        d.3 + v.3 + b.3,
    )
}

/// The records of the three dependency tables of one section.
pub open spec fn records_kind_tables(
    kt: KindTablesV,
    prefix: Seq<Seq<char>>,
    led: LedgerImage,
) -> Seq<InputV> {
    records_one_kind(kt.dependencies, prefix, "dependencies"@, led) + records_one_kind(
        kt.dev_dependencies,
        prefix,
        "dev-dependencies"@,
        led,
    ) + records_one_kind(kt.build_dependencies, prefix, "build-dependencies"@, led)
}

/// The platform-conditional targets of one section, in order; each brings
/// the same three tables under `prefix + ["target", cfg]`.
pub open spec fn apply_targets(
    ts: Seq<TargetBlockV>,
    prefix: Seq<Seq<char>>,
    led: LedgerImage,
    outs: Seq<OutcomeV>,
    fi: bool,
) -> (Seq<TargetBlockV>, LedgerImage, Seq<EditV>, nat)
    decreases ts.len(),
{
    if ts.len() == 0 {
        (seq![], led, seq![], 0)
    } else {
        let t0 = ts[0];
        let r0 = apply_kind_tables(t0.tables, prefix.push("target"@).push(t0.cfg), led, outs, fi);
        let rest = apply_targets(ts.drop_first(), prefix, r0.1, outs.skip(r0.3 as int), fi);
        (
            seq![TargetBlockV { cfg: t0.cfg, tables: r0.0 }] + rest.0,
            rest.1,
            r0.2 + rest.2,
            r0.3 + rest.3,
        )
    }
}

/// The records of the targets of one section.
pub open spec fn records_targets(
    ts: Seq<TargetBlockV>,
    prefix: Seq<Seq<char>>,
    led: LedgerImage,
) -> Seq<InputV>
    decreases ts.len(),
{
    if ts.len() == 0 {
        seq![]
    } else {
        records_kind_tables(ts[0].tables, prefix.push("target"@).push(ts[0].cfg), led)
            + records_targets(ts.drop_first(), prefix, led)
    }
}

/// One whole section: its root tables, then its targets.
pub open spec fn apply_sections(
    s: SectionsV,
    prefix: Seq<Seq<char>>,
    led: LedgerImage,
    outs: Seq<OutcomeV>,
    fi: bool,
) -> (SectionsV, LedgerImage, Seq<EditV>, nat) {
    let k = apply_kind_tables(s.tables, prefix, led, outs, fi);
    let t = apply_targets(s.targets, prefix, k.1, outs.skip(k.3 as int), fi);
    (SectionsV { tables: k.0, targets: t.0 }, t.1, k.2 + t.2, k.3 + t.3)
}

/// The records of one section.
pub open spec fn records_sections(
    s: SectionsV,
    prefix: Seq<Seq<char>>,
    led: LedgerImage,
) -> Seq<InputV> {
    records_kind_tables(s.tables, prefix, led) + records_targets(s.targets, prefix, led)
}

/// The ledger image a run starts from: the recorded entries, or nothing.
pub open spec fn initial_ledger_map(l: LedgerV) -> LedgerImage {
    match l {
        LedgerV::Present(m) => m,
        _ => Map::empty(),
    }
}

/// The ledger state a run leaves behind: a ledger that existed stays, even
/// empty; one that never existed is only created when the run recorded
/// something.
pub open spec fn final_ledger(l0: LedgerV, m: LedgerImage) -> LedgerV {
    match l0 {
        LedgerV::Present(_) => LedgerV::Present(m),
        _ => if m == Map::<Seq<Seq<char>>, SourceV>::empty() {
            LedgerV::Absent
        } else {
            LedgerV::Present(m)
        },
    }
}

/// The records of a whole manifest, in visit order: the root section, then
/// the workspace section under the `workspace` prefix.
pub open spec fn manifest_records(m: ManifestV) -> Seq<InputV> {
    let led = initial_ledger_map(m.ledger);
    records_sections(m.root, seq![], led) + match m.workspace {
        Some(w) => records_sections(w, seq!["workspace"@], led),
        None => seq![],
    }
}

/// A whole manifest processed against a sequence of outcomes, one per
/// record of [`manifest_records`], in the same order.
pub open spec fn apply_manifest_v(m: ManifestV, outs: Seq<OutcomeV>, fi: bool) -> (
    ManifestV,
    Seq<EditV>,
    nat,
) {
    let led0 = initial_ledger_map(m.ledger);
    let r = apply_sections(m.root, seq![], led0, outs, fi);
    match m.workspace {
        Some(ws) => {
            let q = apply_sections(ws, seq!["workspace"@], r.1, outs.skip(r.3 as int), fi);
            (
                ManifestV {
                    has_package: m.has_package,
                    root: r.0,
                    workspace: Some(q.0),
                    ledger: final_ledger(m.ledger, q.1),
                },
                r.2 + q.2,
                r.3 + q.3,
            )
        },
        None => (
            ManifestV {
                has_package: m.has_package,
                root: r.0,
                workspace: None,
                ledger: final_ledger(m.ledger, r.1),
            },
            r.2,
            r.3,
        ),
    }
}

/// The outcomes a revert run decides: every declaration goes back to its
/// recorded original source.
pub open spec fn revert_outcomes(rs: Seq<InputV>) -> Seq<OutcomeV> {
    rs.map_values(|r: InputV| OutcomeV::Replace(r.original_source))
}

/// A pass consumes exactly one outcome per record it produces.
pub proof fn lemma_apply_sel_used(
    entries: Seq<DepEntryV>,
    prefix: Seq<Seq<char>>,
    led: LedgerImage,
    outs: Seq<OutcomeV>,
    want_table: bool,
    fi: bool,
)
    ensures
        apply_sel(entries, prefix, led, outs, want_table, fi).used == records_sel(
            entries,
            prefix,
            led,
            want_table,
        ).len(),
    decreases entries.len(),
{
    if entries.len() > 0 {
        let e = entries[0];
        if in_pass(e.value, want_table) {
            let st = step_v(prefix.push(e.name), e.name, e.value, led, outs[0], fi);
            lemma_apply_sel_used(
                entries.drop_first(),
                prefix,
                st.led,
                outs.drop_first(),
                want_table,
                fi,
            );
            lemma_records_sel_led(entries.drop_first(), prefix, led, st.led, want_table);
        } else {
            lemma_apply_sel_used(entries.drop_first(), prefix, led, outs, want_table, fi);
        }
    }
}

/// How many records a pass produces does not depend on the ledger image.
pub proof fn lemma_records_sel_led(
    entries: Seq<DepEntryV>,
    prefix: Seq<Seq<char>>,
    led1: LedgerImage,
    led2: LedgerImage,
    want_table: bool,
)
    ensures
        records_sel(entries, prefix, led1, want_table).len() == records_sel(
            entries,
            prefix,
            led2,
            want_table,
        ).len(),
    decreases entries.len(),
{
    if entries.len() > 0 {
        lemma_records_sel_led(entries.drop_first(), prefix, led1, led2, want_table);
    }
}

/// A pass keeps the length and the names of the table, and leaves every
/// entry outside the pass exactly as it was.
pub proof fn lemma_apply_sel_shape(
    entries: Seq<DepEntryV>,
    prefix: Seq<Seq<char>>,
    led: LedgerImage,
    outs: Seq<OutcomeV>,
    want_table: bool,
    fi: bool,
)
    ensures
        ({
            let r = apply_sel(entries, prefix, led, outs, want_table, fi);
            &&& r.entries.len() == entries.len()
            &&& forall|k: int|
                0 <= k < entries.len() ==> (#[trigger] r.entries[k]).name == entries[k].name
            &&& forall|k: int|
                0 <= k < entries.len() && !in_pass(entries[k].value, want_table)
                    ==> (#[trigger] r.entries[k]) == entries[k]
        }),
    decreases entries.len(),
{
    if entries.len() > 0 {
        let e = entries[0];
        if in_pass(e.value, want_table) {
            let st = step_v(prefix.push(e.name), e.name, e.value, led, outs[0], fi);
            lemma_apply_sel_shape(
                entries.drop_first(),
                prefix,
                st.led,
                outs.drop_first(),
                want_table,
                fi,
            );
        } else {
            lemma_apply_sel_shape(entries.drop_first(), prefix, led, outs, want_table, fi);
        }
    }
}

/// How many records a table produces does not depend on the ledger image.
pub proof fn lemma_records_deps_led(
    entries: Seq<DepEntryV>,
    prefix: Seq<Seq<char>>,
    led1: LedgerImage,
    led2: LedgerImage,
)
    ensures
        records_deps(entries, prefix, led1).len() == records_deps(entries, prefix, led2).len(),
{
    lemma_records_sel_led(entries, prefix, led1, led2, true);
    lemma_records_sel_led(entries, prefix, led1, led2, false);
}

/// A table consumes exactly one outcome per record it produces.
pub proof fn lemma_apply_deps_used(
    entries: Seq<DepEntryV>,
    prefix: Seq<Seq<char>>,
    led: LedgerImage,
    outs: Seq<OutcomeV>,
    fi: bool,
)
    ensures
        apply_deps(entries, prefix, led, outs, fi).used == records_deps(
            entries,
            prefix,
            led,
        ).len(),
{
    let p1 = apply_sel(entries, prefix, led, outs, true, fi);
    lemma_apply_sel_used(entries, prefix, led, outs, true, fi);
    lemma_apply_sel_used(entries, prefix, p1.led, outs.skip(p1.used as int), false, fi);
    lemma_records_sel_led(entries, prefix, p1.led, led, false);
}

/// How many records a section's three tables produce does not depend on
/// the ledger image.
pub proof fn lemma_records_kind_led(
    kt: KindTablesV,
    prefix: Seq<Seq<char>>,
    led1: LedgerImage,
    led2: LedgerImage,
)
    ensures
        records_kind_tables(kt, prefix, led1).len() == records_kind_tables(kt, prefix, led2).len(),
{
    match kt.dependencies {
        Some(es) => lemma_records_deps_led(es, prefix.push("dependencies"@), led1, led2),
        None => {},
    }
    match kt.dev_dependencies {
        Some(es) => lemma_records_deps_led(es, prefix.push("dev-dependencies"@), led1, led2),
        None => {},
    }
    match kt.build_dependencies {
        Some(es) => lemma_records_deps_led(es, prefix.push("build-dependencies"@), led1, led2),
        None => {},
    }
}

/// A section's three tables consume exactly one outcome per record.
pub proof fn lemma_apply_kind_used(
    kt: KindTablesV,
    prefix: Seq<Seq<char>>,
    led: LedgerImage,
    outs: Seq<OutcomeV>,
    fi: bool,
)
    ensures
        apply_kind_tables(kt, prefix, led, outs, fi).3 == records_kind_tables(
            kt,
            prefix,
            led,
        ).len(),
{
    let d = apply_one_kind(kt.dependencies, prefix, "dependencies"@, led, outs, fi);
    let v = apply_one_kind(
        kt.dev_dependencies,
        prefix,
        "dev-dependencies"@,
        d.1,
        outs.skip(d.3 as int),
        fi,
    );
    match kt.dependencies {
        Some(es) => lemma_apply_deps_used(es, prefix.push("dependencies"@), led, outs, fi),
        None => {},
    }
    match kt.dev_dependencies {
        Some(es) => {
            lemma_apply_deps_used(
                es,
                prefix.push("dev-dependencies"@),
                d.1,
                outs.skip(d.3 as int),
                fi,
            );
            lemma_records_deps_led(es, prefix.push("dev-dependencies"@), d.1, led);
        },
        None => {},
    }
    match kt.build_dependencies {
        Some(es) => {
            lemma_apply_deps_used(
                es,
                prefix.push("build-dependencies"@),
                v.1,
                outs.skip(d.3 + v.3 as int),
                fi,
            );
            lemma_records_deps_led(es, prefix.push("build-dependencies"@), v.1, led);
        },
        None => {},
    }
}

/// How many records the targets produce does not depend on the ledger
/// image.
pub proof fn lemma_records_targets_led(
    ts: Seq<TargetBlockV>,
    prefix: Seq<Seq<char>>,
    led1: LedgerImage,
    led2: LedgerImage,
)
    ensures
        records_targets(ts, prefix, led1).len() == records_targets(ts, prefix, led2).len(),
    decreases ts.len(),
{
    if ts.len() > 0 {
        lemma_records_kind_led(
            ts[0].tables,
            prefix.push("target"@).push(ts[0].cfg),
            led1,
            led2,
        );
        lemma_records_targets_led(ts.drop_first(), prefix, led1, led2);
    }
}

/// The targets consume exactly one outcome per record.
pub proof fn lemma_apply_targets_used(
    ts: Seq<TargetBlockV>,
    prefix: Seq<Seq<char>>,
    led: LedgerImage,
    outs: Seq<OutcomeV>,
    fi: bool,
)
    ensures
        apply_targets(ts, prefix, led, outs, fi).3 == records_targets(ts, prefix, led).len(),
    decreases ts.len(),
{
    if ts.len() > 0 {
        let r0 = apply_kind_tables(
            ts[0].tables,
            prefix.push("target"@).push(ts[0].cfg),
            led,
            outs,
            fi,
        );
        lemma_apply_kind_used(
            ts[0].tables,
            prefix.push("target"@).push(ts[0].cfg),
            led,
            outs,
            fi,
        );
        lemma_apply_targets_used(ts.drop_first(), prefix, r0.1, outs.skip(r0.3 as int), fi);
        lemma_records_targets_led(ts.drop_first(), prefix, r0.1, led);
    }
}

/// How many records a section produces does not depend on the ledger
/// image.
pub proof fn lemma_records_sections_led(
    s: SectionsV,
    prefix: Seq<Seq<char>>,
    led1: LedgerImage,
    led2: LedgerImage,
)
    ensures
        records_sections(s, prefix, led1).len() == records_sections(s, prefix, led2).len(),
{
    lemma_records_kind_led(s.tables, prefix, led1, led2);
    lemma_records_targets_led(s.targets, prefix, led1, led2);
}

/// A section consumes exactly one outcome per record.
pub proof fn lemma_apply_sections_used(
    s: SectionsV,
    prefix: Seq<Seq<char>>,
    led: LedgerImage,
    outs: Seq<OutcomeV>,
    fi: bool,
)
    ensures
        apply_sections(s, prefix, led, outs, fi).3 == records_sections(s, prefix, led).len(),
{
    let k = apply_kind_tables(s.tables, prefix, led, outs, fi);
    lemma_apply_kind_used(s.tables, prefix, led, outs, fi);
    lemma_apply_targets_used(s.targets, prefix, k.1, outs.skip(k.3 as int), fi);
    lemma_records_targets_led(s.targets, prefix, k.1, led);
}

/// The error a run can fail with: the reserved ledger location exists but
/// is not table-like. Nothing of the manifest is touched in that case.
#[derive(Debug, PartialEq, Eq, Structural, Clone, Copy)]
pub enum PatchError {
    MalformedLedger,
}

/// What a run returns: the manifest after the run and the document edits
/// that realize it.
#[derive(Debug)]
pub struct PatchOutput {
    pub manifest: Manifest,
    pub edits: Vec<DocEdit>,
}

/// Every declaration form seen as a table, executably.
fn table_of_value(value: &DepValue) -> (t: crate::manifest::DeclTable)
    requires
        !(value@ is Other),
    ensures
        t@ == table_form_v(value@),
{
    match value {
        DepValue::VersionStr(s) => crate::manifest::DeclTable {
            package: None,
            source: DirectSource::version_only(s.clone()),
            extra: 0,
        },
        DepValue::TableForm(t) => t.clone(),
        DepValue::Other => crate::manifest::DeclTable {
            package: None,
            source: DirectSource::empty(),
            extra: 0,
        },
    }
}

/// Whether a declaration table is a bare version in disguise.
fn is_collapsible(t: &crate::manifest::DeclTable) -> (r: bool)
    ensures
        r == collapsible_v(t@),
{
    t.package.is_none() && t.extra == 0 && t.source.version.is_some() && t.source.registry.is_none()
        && t.source.path.is_none() && t.source.git.is_none() && t.source.rev.is_none()
        && t.source.tag.is_none() && t.source.branch.is_none() && t.source.workspace.is_none()
}

/// The simplest form of a freshly rewritten declaration: a bare version
/// string when nothing else is left, else the table itself.
fn simplest_form(t: &crate::manifest::DeclTable) -> (r: DepValue)
    ensures
        r@ == (if collapsible_v(t@) {
            DepValueV::VersionStr(t@.source.version->0)
        } else {
            DepValueV::TableForm(t@)
        }),
{
    if is_collapsible(t) {
        match &t.source.version {
            Some(v) => DepValue::VersionStr(v.clone()),
            None => DepValue::VersionStr(String::new()),
        }
    } else {
        DepValue::TableForm(t.clone())
    }
}

/// One declaration processed against one outcome: the executable form of
/// [`step_v`], threading the run's ledger and appending the step's edits.
fn step_decl(
    path: &Vec<String>,
    name: &String,
    value: &DepValue,
    led: &mut Vec<LedgerEntry>,
    out: &Outcome,
    fi: bool,
    edits: &mut Vec<DocEdit>,
) -> (nv: DepValue)
    requires
        !(value@ is Other),
        ledger_entries_wf(old(led).deep_view()),
        path.deep_view().len() > 0,
    ensures
        ledger_entries_wf(final(led).deep_view()),
        ({
            let st = step_v(
                path.deep_view(),
                name@,
                value@,
                ledger_map(old(led).deep_view()),
                out@,
                fi,
            );
            &&& nv@ == st.value
            &&& ledger_map(final(led).deep_view()) == st.led
            &&& final(edits).deep_view() == old(edits).deep_view() + st.edits
        }),
{
    let t = table_of_value(value);
    let replacement = match out {
        Outcome::Unchanged => None,
        Outcome::Replace(s) => {
            if *s == t.source {
                None
            } else {
                Some(s)
            }
        },
    };
    match replacement {
        None => {
            if fi && matches!(value, DepValue::TableForm(_)) {
                edits.push(
                    DocEdit::FormatDecl { path: clone_key_path(path), collapse: is_collapsible(&t) },
                );
                assert(edits.deep_view() =~= old(edits).deep_view() + step_v(
                    path.deep_view(),
                    name@,
                    value@,
                    ledger_map(old(led).deep_view()),
                    out@,
                    fi,
                ).edits);
            } else {
                assert(edits.deep_view() =~= old(edits).deep_view() + step_v(
                    path.deep_view(),
                    name@,
                    value@,
                    ledger_map(old(led).deep_view()),
                    out@,
                    fi,
                ).edits);
            }
            value.clone()
        },
        Some(s) => {
            let ghost led0 = ledger_map(old(led).deep_view());
            let looked = ledger_lookup(led, path);
            match &looked {
                None => {
                    let pkg: String = match &t.package {
                        Some(p) => p.clone(),
                        None => name.clone(),
                    };
                    let mut bpath = clone_key_path(path);
                    assert(bpath@.len() == bpath.deep_view().len());
                    let last = bpath.len() - 1;
                    bpath.set(last, pkg);
                    assert(bpath.deep_view() =~= backup_path(
                        path.deep_view(),
                        pkg_of_v(name@, t@),
                    ));
                    ledger_insert(led, &bpath, &t.source);
                    edits.push(DocEdit::SetLedger { path: bpath, original: t.source.clone() });
                },
                Some(orig) => {
                    if orig == s {
                        ledger_remove(led, path);
                        edits.push(DocEdit::RemoveLedger { path: clone_key_path(path) });
                    }
                },
            }
            let newt = crate::manifest::DeclTable {
                package: opt_str_clone(&t.package),
                source: s.clone(),
                extra: t.extra,
            };
            let nv = simplest_form(&newt);
            edits.push(
                DocEdit::SetDecl { path: clone_key_path(path), value: nv.clone(), inline: fi },
            );
            proof {
                let st = step_v(path.deep_view(), name@, value@, led0, out@, fi);
                assert(newt@ =~= DeclTableV {
                    package: table_form_v(value@).package,
                    source: s@,
                    extra: table_form_v(value@).extra,
                });
                assert(edits.deep_view() =~= old(edits).deep_view() + st.edits);
            }
            nv
        },
    }
}

/// One dependency table fully processed: the executable form of
/// [`apply_deps`]. The first loop steps the declarations written as
/// tables, the second the ones written as bare version strings; each
/// consumes the next outcome in turn.
#[verifier::rlimit(60)]
fn apply_deps_table(
    entries: &Vec<DepEntry>,
    prefix: &Vec<String>,
    led: &mut Vec<LedgerEntry>,
    outs: &Vec<Outcome>,
    idx: &mut usize,
    fi: bool,
    edits: &mut Vec<DocEdit>,
) -> (r: Vec<DepEntry>)
    requires
        ledger_entries_wf(old(led).deep_view()),
        *old(idx) + records_deps(
            entries.deep_view(),
            prefix.deep_view(),
            ledger_map(old(led).deep_view()),
        ).len() <= outs@.len(),
    ensures
        ledger_entries_wf(final(led).deep_view()),
        ({
            let r0 = apply_deps(
                entries.deep_view(),
                prefix.deep_view(),
                ledger_map(old(led).deep_view()),
                outs.deep_view().skip(*old(idx) as int),
                fi,
            );
            &&& r.deep_view() == r0.entries
            &&& ledger_map(final(led).deep_view()) == r0.led
            &&& final(edits).deep_view() == old(edits).deep_view() + r0.edits
            &&& *final(idx) == *old(idx) + r0.used
        }),
{
    let ghost eV = entries.deep_view();
    let ghost prefixV = prefix.deep_view();
    let ghost led0 = ledger_map(led.deep_view());
    let ghost idx0 = *idx;
    let ghost e0 = edits.deep_view();
    let ghost outs0 = outs.deep_view().skip(idx0 as int);
    let ghost r1 = apply_sel(eV, prefixV, led0, outs0, true, fi);
    let ghost r2 = apply_sel(eV, prefixV, r1.led, outs0.skip(r1.used as int), false, fi);
    let olen: usize = outs.len();
    proof {
        lemma_apply_sel_used(eV, prefixV, led0, outs0, true, fi);
        lemma_apply_sel_used(eV, prefixV, r1.led, outs0.skip(r1.used as int), false, fi);
        lemma_records_sel_led(eV, prefixV, r1.led, led0, false);
        lemma_apply_sel_shape(eV, prefixV, led0, outs0, true, fi);
        lemma_apply_sel_shape(eV, prefixV, r1.led, outs0.skip(r1.used as int), false, fi);
        assert(records_deps(eV, prefixV, led0).len() == r1.used + r2.used);
        assert(eV.skip(0) =~= eV);
        assert(Seq::<DepEntryV>::empty() + r1.entries =~= r1.entries);
    }

    let mut cur: Vec<DepEntry> = Vec::new();
    let mut i: usize = 0;
    while i < entries.len()
        invariant
            i <= eV.len(),
            eV == entries.deep_view(),
            eV.len() == entries@.len(),
            prefixV == prefix.deep_view(),
            outs@.len() == olen,
            outs0 == outs.deep_view().skip(idx0 as int),
            r1 == apply_sel(eV, prefixV, led0, outs0, true, fi),
            r2 == apply_sel(eV, prefixV, r1.led, outs0.skip(r1.used as int), false, fi),
            r1.entries.len() == eV.len(),
            cur.deep_view().len() == i,
            ledger_entries_wf(led.deep_view()),
            ({
                let fut = apply_sel(
                    eV.skip(i as int),
                    prefixV,
                    ledger_map(led.deep_view()),
                    outs.deep_view().skip(*idx as int),
                    true,
                    fi,
                );
                &&& fut.led == r1.led
                &&& cur.deep_view() + fut.entries == r1.entries
                &&& e0 + r1.edits == edits.deep_view() + fut.edits
                &&& idx0 + r1.used == *idx + fut.used
                &&& *idx + fut.used + r2.used <= outs@.len()
            }),
        decreases eV.len() - i,
    {
        let ghost led_pre = ledger_map(led.deep_view());
        let ghost idx_pre = *idx as int;
        let ghost cur_pre = cur.deep_view();
        let ghost edits_pre = edits.deep_view();
        let ghost futpre = apply_sel(
            eV.skip(i as int),
            prefixV,
            led_pre,
            outs.deep_view().skip(idx_pre),
            true,
            fi,
        );
        proof {
            assert(eV.skip(i as int)[0] == eV[i as int]);
            assert(eV.skip(i as int).drop_first() =~= eV.skip(i as int + 1));
        }
        let e = &entries[i];
        assert(e@ == eV[i as int]);
        if matches!(&e.value, DepValue::TableForm(_)) {
            proof {
                assert(in_pass(eV[i as int].value, true));
                assert(futpre.used >= 1);
                assert(*idx < outs@.len());
                assert(outs.deep_view().skip(idx_pre).drop_first() =~= outs.deep_view().skip(
                    idx_pre + 1,
                ));
                assert(outs.deep_view().skip(idx_pre)[0] == outs.deep_view()[idx_pre]);
            }
            let path = child_path(prefix, &e.name);
            assert(path.deep_view() == prefix.deep_view().push(e.name@));
            let out = &outs[*idx];
            assert(out@ == outs.deep_view()[idx_pre]);
            let nv = step_decl(&path, &e.name, &e.value, led, out, fi, edits);
            proof {
                assert(e.value@ == eV[i as int].value);
                assert(e.name@ == eV[i as int].name);
                assert(path.deep_view() == prefixV.push(eV[i as int].name));
                assert(ledger_map(led.deep_view()) == step_v(
                    path.deep_view(),
                    e.name@,
                    e.value@,
                    led_pre,
                    out@,
                    fi,
                ).led);
            }
            vec_push_dv(&mut cur, DepEntry { name: e.name.clone(), value: nv });
            *idx += 1;
            proof {
                let st = step_v(
                    prefixV.push(eV[i as int].name),
                    eV[i as int].name,
                    eV[i as int].value,
                    led_pre,
                    outs.deep_view()[idx_pre],
                    fi,
                );
                let futnew = apply_sel(
                    eV.skip(i as int + 1),
                    prefixV,
                    ledger_map(led.deep_view()),
                    outs.deep_view().skip(*idx as int),
                    true,
                    fi,
                );
                assert(e.name@ == eV[i as int].name);
                assert(ledger_map(led.deep_view()) == st.led);
                assert(futpre.entries == seq![
                    DepEntryV { name: eV[i as int].name, value: st.value },
                ] + futnew.entries);
                assert(futpre.edits == st.edits + futnew.edits);
                assert(futpre.used == futnew.used + 1);
                assert(futpre.led == futnew.led);
                assert(cur.deep_view() + futnew.entries =~= cur_pre + futpre.entries);
                assert(edits.deep_view() + futnew.edits =~= edits_pre + futpre.edits);
            }
        } else {
            vec_push_dv(&mut cur, e.clone());
            proof {
                assert(!in_pass(eV[i as int].value, true));
                let futnew = apply_sel(
                    eV.skip(i as int + 1),
                    prefixV,
                    ledger_map(led.deep_view()),
                    outs.deep_view().skip(*idx as int),
                    true,
                    fi,
                );
                assert(futpre.entries == seq![eV[i as int]] + futnew.entries);
                assert(futpre.edits == futnew.edits);
                assert(futpre.used == futnew.used);
                assert(futpre.led == futnew.led);
                assert(cur.deep_view() + futnew.entries =~= cur_pre + futpre.entries);
            }
        }
        i += 1;
    }

    proof {
        assert(eV.skip(eV.len() as int) =~= Seq::<DepEntryV>::empty());
        assert(cur.deep_view() + Seq::<DepEntryV>::empty() =~= cur.deep_view());
        assert(cur.deep_view() =~= r1.entries);
        assert(ledger_map(led.deep_view()) == r1.led);
        assert(outs.deep_view().skip(*idx as int) =~= outs0.skip(r1.used as int));
        assert(edits.deep_view() + Seq::<EditV>::empty() =~= edits.deep_view());
        assert(e0 + r1.edits =~= edits.deep_view());
        assert(e0 + r1.edits + r2.edits =~= edits.deep_view() + r2.edits);
        assert(r2.entries.skip(0) =~= r2.entries);
        assert(r2.entries.len() == eV.len());
    }

    let mut i: usize = 0;
    while i < entries.len()
        invariant
            i <= eV.len(),
            eV == entries.deep_view(),
            eV.len() == entries@.len(),
            prefixV == prefix.deep_view(),
            outs@.len() == olen,
            outs0 == outs.deep_view().skip(idx0 as int),
            r1 == apply_sel(eV, prefixV, led0, outs0, true, fi),
            r2 == apply_sel(eV, prefixV, r1.led, outs0.skip(r1.used as int), false, fi),
            r1.entries.len() == eV.len(),
            r2.entries.len() == eV.len(),
            cur.deep_view().len() == eV.len(),
            forall|k: int|
                0 <= k < eV.len() && (#[trigger] eV[k]).value is TableForm ==> cur.deep_view()[k]
                    == r1.entries[k],
            forall|k: int|
                0 <= k < i && (#[trigger] eV[k]).value is VersionStr ==> cur.deep_view()[k]
                    == r2.entries[k],
            forall|k: int|
                i <= k < eV.len() && (#[trigger] eV[k]).value is VersionStr ==> cur.deep_view()[k]
                    == eV[k],
            forall|k: int|
                0 <= k < eV.len() && (#[trigger] eV[k]).value is Other ==> cur.deep_view()[k]
                    == eV[k],
            ledger_entries_wf(led.deep_view()),
            ({
                let fut = apply_sel(
                    eV.skip(i as int),
                    prefixV,
                    ledger_map(led.deep_view()),
                    outs.deep_view().skip(*idx as int),
                    false,
                    fi,
                );
                &&& fut.led == r2.led
                &&& r2.entries.skip(i as int) == fut.entries
                &&& e0 + r1.edits + r2.edits == edits.deep_view() + fut.edits
                &&& idx0 + r1.used + r2.used == *idx + fut.used
                &&& *idx + fut.used <= outs@.len()
            }),
        decreases eV.len() - i,
    {
        let ghost led_pre = ledger_map(led.deep_view());
        let ghost idx_pre = *idx as int;
        let ghost cur_pre = cur.deep_view();
        let ghost edits_pre = edits.deep_view();
        let ghost futpre = apply_sel(
            eV.skip(i as int),
            prefixV,
            led_pre,
            outs.deep_view().skip(idx_pre),
            false,
            fi,
        );
        proof {
            assert(eV.skip(i as int)[0] == eV[i as int]);
            assert(eV.skip(i as int).drop_first() =~= eV.skip(i as int + 1));
            assert(r2.entries.skip(i as int).drop_first() =~= r2.entries.skip(i as int + 1));
        }
        let e = &entries[i];
        assert(e@ == eV[i as int]);
        if matches!(&e.value, DepValue::VersionStr(_)) {
            proof {
                assert(in_pass(eV[i as int].value, false));
                assert(futpre.used >= 1);
                assert(*idx < outs@.len());
                assert(outs.deep_view().skip(idx_pre).drop_first() =~= outs.deep_view().skip(
                    idx_pre + 1,
                ));
                assert(outs.deep_view().skip(idx_pre)[0] == outs.deep_view()[idx_pre]);
            }
            let path = child_path(prefix, &e.name);
            assert(path.deep_view() == prefix.deep_view().push(e.name@));
            let out = &outs[*idx];
            assert(out@ == outs.deep_view()[idx_pre]);
            let nv = step_decl(&path, &e.name, &e.value, led, out, fi, edits);
            proof {
                assert(e.value@ == eV[i as int].value);
                assert(e.name@ == eV[i as int].name);
                assert(path.deep_view() == prefixV.push(eV[i as int].name));
                assert(ledger_map(led.deep_view()) == step_v(
                    path.deep_view(),
                    e.name@,
                    e.value@,
                    led_pre,
                    out@,
                    fi,
                ).led);
            }
            vec_set_dv(&mut cur, i, DepEntry { name: e.name.clone(), value: nv });
            *idx += 1;
            proof {
                let st = step_v(
                    prefixV.push(eV[i as int].name),
                    eV[i as int].name,
                    eV[i as int].value,
                    led_pre,
                    outs.deep_view()[idx_pre],
                    fi,
                );
                let futnew = apply_sel(
                    eV.skip(i as int + 1),
                    prefixV,
                    ledger_map(led.deep_view()),
                    outs.deep_view().skip(*idx as int),
                    false,
                    fi,
                );
                assert(e.name@ == eV[i as int].name);
                assert(ledger_map(led.deep_view()) == st.led);
                assert(futpre.entries == seq![
                    DepEntryV { name: eV[i as int].name, value: st.value },
                ] + futnew.entries);
                assert(futpre.edits == st.edits + futnew.edits);
                assert(futpre.used == futnew.used + 1);
                assert(futpre.led == futnew.led);
                assert(r2.entries.skip(i as int)[0] == r2.entries[i as int]);
                assert(r2.entries[i as int] == DepEntryV {
                    name: eV[i as int].name,
                    value: st.value,
                });
                assert(r2.entries.skip(i as int + 1) =~= futnew.entries);
                assert(edits.deep_view() + futnew.edits =~= edits_pre + futpre.edits);
            }
        } else {
            proof {
                assert(!in_pass(eV[i as int].value, false));
                let futnew = apply_sel(
                    eV.skip(i as int + 1),
                    prefixV,
                    ledger_map(led.deep_view()),
                    outs.deep_view().skip(*idx as int),
                    false,
                    fi,
                );
                assert(futpre.entries == seq![eV[i as int]] + futnew.entries);
                assert(r2.entries.skip(i as int)[0] == r2.entries[i as int]);
                assert(r2.entries.skip(i as int + 1) =~= futnew.entries);
            }
        }
        i += 1;
    }

    proof {
        assert(eV.skip(eV.len() as int) =~= Seq::<DepEntryV>::empty());
        assert(ledger_map(led.deep_view()) == r2.led);
        let r0 = apply_deps(eV, prefixV, led0, outs0, fi);
        assert forall|k: int| 0 <= k < eV.len() implies #[trigger] cur.deep_view()[k]
            == r0.entries[k] by {
            if eV[k].value is Other {
                assert(r2.entries[k] == eV[k]);
            }
        }
        assert(cur.deep_view() =~= r0.entries);
        assert(edits.deep_view() + Seq::<EditV>::empty() =~= edits.deep_view());
        assert(edits.deep_view() =~= e0 + (r1.edits + r2.edits));
        assert(outs.deep_view().skip(idx0 as int) =~= outs0);
    }
    cur
}

/// The three dependency tables of one section, processed in their fixed
/// order: the executable form of [`apply_kind_tables`].
fn apply_kind_tables_exec(
    kt: &KindTables,
    prefix: &Vec<String>,
    led: &mut Vec<LedgerEntry>,
    outs: &Vec<Outcome>,
    idx: &mut usize,
    fi: bool,
    edits: &mut Vec<DocEdit>,
) -> (r: KindTables)
    requires
        ledger_entries_wf(old(led).deep_view()),
        *old(idx) + records_kind_tables(
            kt@,
            prefix.deep_view(),
            ledger_map(old(led).deep_view()),
        ).len() <= outs@.len(),
    ensures
        ledger_entries_wf(final(led).deep_view()),
        ({
            let r0 = apply_kind_tables(
                kt@,
                prefix.deep_view(),
                ledger_map(old(led).deep_view()),
                outs.deep_view().skip(*old(idx) as int),
                fi,
            );
            &&& r@ == r0.0
            &&& ledger_map(final(led).deep_view()) == r0.1
            &&& final(edits).deep_view() == old(edits).deep_view() + r0.2
            &&& *final(idx) == *old(idx) + r0.3
        }),
{
    let ghost prefixV = prefix.deep_view();
    let ghost led0 = ledger_map(led.deep_view());
    let ghost idx0 = *idx;
    let ghost e0 = edits.deep_view();
    let ghost outsV = outs.deep_view();
    let ghost outs0 = outsV.skip(idx0 as int);
    let ghost d = apply_one_kind(kt@.dependencies, prefixV, "dependencies"@, led0, outs0, fi);
    let ghost v = apply_one_kind(
        kt@.dev_dependencies,
        prefixV,
        "dev-dependencies"@,
        d.1,
        outs0.skip(d.3 as int),
        fi,
    );
    let ghost b = apply_one_kind(
        kt@.build_dependencies,
        prefixV,
        "build-dependencies"@,
        v.1,
        outs0.skip(d.3 + v.3 as int),
        fi,
    );

    let kname = "dependencies".to_owned();
    let p_dep = child_path(prefix, &kname);
    let new_deps = match &kt.dependencies {
        Some(es) => {
            proof {
                lemma_apply_deps_used(es.deep_view(), prefixV.push("dependencies"@), led0, outs0, fi);
            }
            Some(apply_deps_table(es, &p_dep, led, outs, idx, fi, edits))
        },
        None => None,
    };
    proof {
        assert(*idx == idx0 + d.3);
        assert(ledger_map(led.deep_view()) == d.1);
        assert(edits.deep_view() =~= e0 + d.2);
        assert(outsV.skip(*idx as int) =~= outs0.skip(d.3 as int));
        match kt@.dev_dependencies {
            Some(es) => {
                lemma_records_deps_led(es, prefixV.push("dev-dependencies"@), d.1, led0);
                lemma_apply_deps_used(
                    es,
                    prefixV.push("dev-dependencies"@),
                    d.1,
                    outs0.skip(d.3 as int),
                    fi,
                );
            },
            None => {},
        }
    }
    let kname = "dev-dependencies".to_owned();
    let p_dev = child_path(prefix, &kname);
    let new_dev = match &kt.dev_dependencies {
        Some(es) => Some(apply_deps_table(es, &p_dev, led, outs, idx, fi, edits)),
        None => None,
    };
    proof {
        assert(*idx == idx0 + d.3 + v.3);
        assert(ledger_map(led.deep_view()) == v.1);
        assert(edits.deep_view() =~= e0 + d.2 + v.2);
        assert(outsV.skip(*idx as int) =~= outs0.skip(d.3 + v.3 as int));
        match kt@.build_dependencies {
            Some(es) => {
                lemma_records_deps_led(es, prefixV.push("build-dependencies"@), v.1, led0);
            },
            None => {},
        }
    }
    let kname = "build-dependencies".to_owned();
    let p_build = child_path(prefix, &kname);
    let new_build = match &kt.build_dependencies {
        Some(es) => Some(apply_deps_table(es, &p_build, led, outs, idx, fi, edits)),
        None => None,
    };
    proof {
        assert(edits.deep_view() =~= e0 + d.2 + v.2 + b.2);
        assert(edits.deep_view() =~= e0 + (d.2 + v.2 + b.2));
    }
    KindTables {
        dependencies: new_deps,
        dev_dependencies: new_dev,
        build_dependencies: new_build,
    }
}

/// The platform-conditional targets of one section, processed in order:
/// the executable form of [`apply_targets`].
#[verifier::rlimit(100)]
fn apply_targets_exec(
    targets: &Vec<TargetBlock>,
    prefix: &Vec<String>,
    led: &mut Vec<LedgerEntry>,
    outs: &Vec<Outcome>,
    idx: &mut usize,
    fi: bool,
    edits: &mut Vec<DocEdit>,
) -> (r: Vec<TargetBlock>)
    requires
        ledger_entries_wf(old(led).deep_view()),
        *old(idx) + records_targets(
            targets.deep_view(),
            prefix.deep_view(),
            ledger_map(old(led).deep_view()),
        ).len() <= outs@.len(),
    ensures
        ledger_entries_wf(final(led).deep_view()),
        ({
            let r0 = apply_targets(
                targets.deep_view(),
                prefix.deep_view(),
                ledger_map(old(led).deep_view()),
                outs.deep_view().skip(*old(idx) as int),
                fi,
            );
            &&& r.deep_view() == r0.0
            &&& ledger_map(final(led).deep_view()) == r0.1
            &&& final(edits).deep_view() == old(edits).deep_view() + r0.2
            &&& *final(idx) == *old(idx) + r0.3
        }),
{
    let ghost tV = targets.deep_view();
    let ghost prefixV = prefix.deep_view();
    let ghost led0 = ledger_map(led.deep_view());
    let ghost idx0 = *idx;
    let ghost e0 = edits.deep_view();
    let ghost outs0 = outs.deep_view().skip(idx0 as int);
    let ghost r0 = apply_targets(tV, prefixV, led0, outs0, fi);
    proof {
        lemma_apply_targets_used(tV, prefixV, led0, outs0, fi);
        assert(tV.skip(0) =~= tV);
        assert(Seq::<TargetBlockV>::empty() + r0.0 =~= r0.0);
    }
    let mut out: Vec<TargetBlock> = Vec::new();
    let mut i: usize = 0;
    while i < targets.len()
        invariant
            i <= tV.len(),
            tV == targets.deep_view(),
            tV.len() == targets@.len(),
            prefixV == prefix.deep_view(),
            outs0 == outs.deep_view().skip(idx0 as int),
            r0 == apply_targets(tV, prefixV, led0, outs0, fi),
            out.deep_view().len() == i,
            ledger_entries_wf(led.deep_view()),
            ({
                let fut = apply_targets(
                    tV.skip(i as int),
                    prefixV,
                    ledger_map(led.deep_view()),
                    outs.deep_view().skip(*idx as int),
                    fi,
                );
                &&& fut.1 == r0.1
                &&& out.deep_view() + fut.0 == r0.0
                &&& e0 + r0.2 == edits.deep_view() + fut.2
                &&& idx0 + r0.3 == *idx + fut.3
                &&& *idx + fut.3 <= outs@.len()
            }),
        decreases tV.len() - i,
    {
        let ghost led_pre = ledger_map(led.deep_view());
        let ghost idx_pre = *idx as int;
        let ghost out_pre = out.deep_view();
        let ghost edits_pre = edits.deep_view();
        let ghost futpre = apply_targets(
            tV.skip(i as int),
            prefixV,
            led_pre,
            outs.deep_view().skip(idx_pre),
            fi,
        );
        proof {
            assert(tV.skip(i as int)[0] == tV[i as int]);
            assert(tV.skip(i as int).drop_first() =~= tV.skip(i as int + 1));
        }
        let block = &targets[i];
        assert(block@ == tV[i as int]);
        let tname = "target".to_owned();
        let p_t = child_path(prefix, &tname);
        let p2 = child_path(&p_t, &block.cfg);
        proof {
            assert(p2.deep_view() == prefixV.push("target"@).push(tV[i as int].cfg));
            lemma_apply_kind_used(
                tV[i as int].tables,
                prefixV.push("target"@).push(tV[i as int].cfg),
                led_pre,
                outs.deep_view().skip(idx_pre),
                fi,
            );
        }
        let new_tables = apply_kind_tables_exec(&block.tables, &p2, led, outs, idx, fi, edits);
        vec_push_dv(&mut out, TargetBlock { cfg: block.cfg.clone(), tables: new_tables });
        i += 1;
        proof {
            let rk = apply_kind_tables(
                tV[i as int - 1].tables,
                prefixV.push("target"@).push(tV[i as int - 1].cfg),
                led_pre,
                outs.deep_view().skip(idx_pre),
                fi,
            );
            assert(futpre.3 == rk.3 + apply_targets(
                tV.skip(i as int),
                prefixV,
                rk.1,
                outs.deep_view().skip(idx_pre).skip(rk.3 as int),
                fi,
            ).3);
            assert(outs.deep_view().skip(idx_pre).skip(rk.3 as int) =~= outs.deep_view().skip(
                *idx as int,
            ));
            let futnew = apply_targets(
                tV.skip(i as int),
                prefixV,
                ledger_map(led.deep_view()),
                outs.deep_view().skip(*idx as int),
                fi,
            );
            assert(futpre.0 == seq![
                TargetBlockV { cfg: tV[i as int - 1].cfg, tables: rk.0 },
            ] + futnew.0);
            assert(out.deep_view() + futnew.0 =~= out_pre + futpre.0);
            assert(edits.deep_view() + futnew.2 =~= edits_pre + futpre.2);
        }
    }
    proof {
        assert(tV.skip(tV.len() as int) =~= Seq::<TargetBlockV>::empty());
        assert(out.deep_view() + Seq::<TargetBlockV>::empty() =~= out.deep_view());
        assert(edits.deep_view() + Seq::<EditV>::empty() =~= edits.deep_view());
        assert(e0 + r0.2 =~= edits.deep_view());
        assert(outs.deep_view().skip(idx0 as int) =~= outs0);
    }
    out
}

/// One whole section: the executable form of [`apply_sections`].
fn apply_sections_exec(
    s: &Sections,
    prefix: &Vec<String>,
    led: &mut Vec<LedgerEntry>,
    outs: &Vec<Outcome>,
    idx: &mut usize,
    fi: bool,
    edits: &mut Vec<DocEdit>,
) -> (r: Sections)
    requires
        ledger_entries_wf(old(led).deep_view()),
        *old(idx) + records_sections(
            s@,
            prefix.deep_view(),
            ledger_map(old(led).deep_view()),
        ).len() <= outs@.len(),
    ensures
        ledger_entries_wf(final(led).deep_view()),
        ({
            let r0 = apply_sections(
                s@,
                prefix.deep_view(),
                ledger_map(old(led).deep_view()),
                outs.deep_view().skip(*old(idx) as int),
                fi,
            );
            &&& r@ == r0.0
            &&& ledger_map(final(led).deep_view()) == r0.1
            &&& final(edits).deep_view() == old(edits).deep_view() + r0.2
            &&& *final(idx) == *old(idx) + r0.3
        }),
{
    let ghost prefixV = prefix.deep_view();
    let ghost led0 = ledger_map(led.deep_view());
    let ghost idx0 = *idx;
    let ghost e0 = edits.deep_view();
    let ghost outs0 = outs.deep_view().skip(idx0 as int);
    let ghost k = apply_kind_tables(s@.tables, prefixV, led0, outs0, fi);
    proof {
        lemma_apply_kind_used(s@.tables, prefixV, led0, outs0, fi);
    }
    let new_tables = apply_kind_tables_exec(&s.tables, prefix, led, outs, idx, fi, edits);
    proof {
        assert(*idx == idx0 + k.3);
        assert(ledger_map(led.deep_view()) == k.1);
        assert(k.3 <= records_sections(s@, prefixV, led0).len());
        assert(outs.deep_view().skip(*idx as int) =~= outs0.skip(k.3 as int));
        lemma_records_targets_led(s@.targets, prefixV, k.1, led0);
    }
    let new_targets = apply_targets_exec(&s.targets, prefix, led, outs, idx, fi, edits);
    proof {
        let t = apply_targets(s@.targets, prefixV, k.1, outs0.skip(k.3 as int), fi);
        assert(edits.deep_view() =~= e0 + k.2 + t.2);
        assert(edits.deep_view() =~= e0 + (k.2 + t.2));
    }
    Sections { tables: new_tables, targets: new_targets }
}

/// An entry-exact copy of the ledger's entries.
fn clone_ledger_entries(v: &Vec<LedgerEntry>) -> (r: Vec<LedgerEntry>)
    ensures
        r.deep_view() == v.deep_view(),
{
    let mut out: Vec<LedgerEntry> = Vec::new();
    let mut i: usize = 0;
    while i < v.len()
        invariant
            i <= v@.len(),
            v.deep_view().len() == v@.len(),
            out.deep_view().len() == i,
            forall|k: int| 0 <= k < i ==> out.deep_view()[k] == v.deep_view()[k],
        decreases v@.len() - i,
    {
        assert(v.deep_view()[i as int] == v@[i as int]@);
        let e = &v[i];
        vec_push_dv(
            &mut out,
            LedgerEntry { path: clone_key_path(&e.path), original: e.original.clone() },
        );
        i += 1;
    }
    assert(out.deep_view() =~= v.deep_view());
    out
}

/// One pass of record collection over one dependency table.
fn collect_sel(
    entries: &Vec<DepEntry>,
    prefix: &Vec<String>,
    led: &Vec<LedgerEntry>,
    want_table: bool,
    out: &mut Vec<DirectInput>,
)
    requires
        ledger_entries_wf(led.deep_view()),
    ensures
        final(out).deep_view() == old(out).deep_view() + records_sel(
            entries.deep_view(),
            prefix.deep_view(),
            ledger_map(led.deep_view()),
            want_table,
        ),
{
    let ghost eV = entries.deep_view();
    let ghost prefixV = prefix.deep_view();
    let ghost ledm = ledger_map(led.deep_view());
    let ghost o0 = out.deep_view();
    let ghost rs = records_sel(eV, prefixV, ledm, want_table);
    proof {
        assert(eV.skip(0) =~= eV);
    }
    let mut i: usize = 0;
    while i < entries.len()
        invariant
            i <= eV.len(),
            eV == entries.deep_view(),
            eV.len() == entries@.len(),
            prefixV == prefix.deep_view(),
            ledm == ledger_map(led.deep_view()),
            ledger_entries_wf(led.deep_view()),
            rs == records_sel(eV, prefixV, ledm, want_table),
            o0 + rs == out.deep_view() + records_sel(
                eV.skip(i as int),
                prefixV,
                ledm,
                want_table,
            ),
        decreases eV.len() - i,
    {
        let ghost out_pre = out.deep_view();
        proof {
            assert(eV.skip(i as int)[0] == eV[i as int]);
            assert(eV.skip(i as int).drop_first() =~= eV.skip(i as int + 1));
        }
        let e = &entries[i];
        assert(e@ == eV[i as int]);
        let matches_pass = if want_table {
            matches!(&e.value, DepValue::TableForm(_))
        } else {
            matches!(&e.value, DepValue::VersionStr(_))
        };
        if matches_pass {
            assert(in_pass(eV[i as int].value, want_table));
            let t = table_of_value(&e.value);
            let path = child_path(prefix, &e.name);
            let orig: DirectSource = match ledger_lookup(led, &path) {
                Some(sv) => sv,
                None => t.source.clone(),
            };
            let pkg: String = match &t.package {
                Some(p) => p.clone(),
                None => e.name.clone(),
            };
            let rec = DirectInput {
                name: e.name.clone(),
                package: pkg,
                source: t.source,
                original_source: orig,
            };
            assert(rec@ == record_v(prefixV.push(eV[i as int].name), eV[i as int].name, eV[i as int].value, ledm));
            vec_push_dv(out, rec);
            proof {
                let fut = records_sel(eV.skip(i as int + 1), prefixV, ledm, want_table);
                assert(records_sel(eV.skip(i as int), prefixV, ledm, want_table) == seq![
                    record_v(prefixV.push(eV[i as int].name), eV[i as int].name, eV[i as int].value, ledm),
                ] + fut);
                assert(out.deep_view() + fut =~= out_pre + records_sel(
                    eV.skip(i as int),
                    prefixV,
                    ledm,
                    want_table,
                ));
            }
        } else {
            assert(!in_pass(eV[i as int].value, want_table));
        }
        i += 1;
    }
    proof {
        assert(eV.skip(eV.len() as int) =~= Seq::<DepEntryV>::empty());
        assert(out.deep_view() + Seq::<InputV>::empty() =~= out.deep_view());
        assert(out.deep_view() =~= o0 + rs);
    }
}

/// Record collection over one dependency table: table forms, then bare
/// version strings.
fn collect_deps_table(
    entries: &Vec<DepEntry>,
    prefix: &Vec<String>,
    led: &Vec<LedgerEntry>,
    out: &mut Vec<DirectInput>,
)
    requires
        ledger_entries_wf(led.deep_view()),
    ensures
        final(out).deep_view() == old(out).deep_view() + records_deps(
            entries.deep_view(),
            prefix.deep_view(),
            ledger_map(led.deep_view()),
        ),
{
    let ghost o0 = out.deep_view();
    collect_sel(entries, prefix, led, true, out);
    collect_sel(entries, prefix, led, false, out);
    proof {
        let a = records_sel(
            entries.deep_view(),
            prefix.deep_view(),
            ledger_map(led.deep_view()),
            true,
        );
        let b = records_sel(
            entries.deep_view(),
            prefix.deep_view(),
            ledger_map(led.deep_view()),
            false,
        );
        assert(o0 + a + b =~= o0 + (a + b));
    }
}

/// Record collection over the three tables of one section.
fn collect_kind_tables(
    kt: &KindTables,
    prefix: &Vec<String>,
    led: &Vec<LedgerEntry>,
    out: &mut Vec<DirectInput>,
)
    requires
        ledger_entries_wf(led.deep_view()),
    ensures
        final(out).deep_view() == old(out).deep_view() + records_kind_tables(
            kt@,
            prefix.deep_view(),
            ledger_map(led.deep_view()),
        ),
{
    let ghost prefixV = prefix.deep_view();
    let ghost ledm = ledger_map(led.deep_view());
    let ghost o0 = out.deep_view();
    let kname = "dependencies".to_owned();
    let p_dep = child_path(prefix, &kname);
    match &kt.dependencies {
        Some(es) => collect_deps_table(es, &p_dep, led, out),
        None => {
            proof {
                assert(out.deep_view() + Seq::<InputV>::empty() =~= out.deep_view());
            }
        },
    }
    let kname = "dev-dependencies".to_owned();
    let p_dev = child_path(prefix, &kname);
    match &kt.dev_dependencies {
        Some(es) => collect_deps_table(es, &p_dev, led, out),
        None => {
            proof {
                assert(out.deep_view() + Seq::<InputV>::empty() =~= out.deep_view());
            }
        },
    }
    let kname = "build-dependencies".to_owned();
    let p_build = child_path(prefix, &kname);
    match &kt.build_dependencies {
        Some(es) => collect_deps_table(es, &p_build, led, out),
        None => {
            proof {
                assert(out.deep_view() + Seq::<InputV>::empty() =~= out.deep_view());
            }
        },
    }
    proof {
        let a = records_one_kind(kt@.dependencies, prefixV, "dependencies"@, ledm);
        let b = records_one_kind(kt@.dev_dependencies, prefixV, "dev-dependencies"@, ledm);
        let c = records_one_kind(kt@.build_dependencies, prefixV, "build-dependencies"@, ledm);
        assert(out.deep_view() =~= o0 + (a + b + c));
    }
}

/// Record collection over the targets of one section.
fn collect_targets(
    targets: &Vec<TargetBlock>,
    prefix: &Vec<String>,
    led: &Vec<LedgerEntry>,
    out: &mut Vec<DirectInput>,
)
    requires
        ledger_entries_wf(led.deep_view()),
    ensures
        final(out).deep_view() == old(out).deep_view() + records_targets(
            targets.deep_view(),
            prefix.deep_view(),
            ledger_map(led.deep_view()),
        ),
{
    let ghost tV = targets.deep_view();
    let ghost prefixV = prefix.deep_view();
    let ghost ledm = ledger_map(led.deep_view());
    let ghost o0 = out.deep_view();
    let ghost rs = records_targets(tV, prefixV, ledm);
    proof {
        assert(tV.skip(0) =~= tV);
    }
    let mut i: usize = 0;
    while i < targets.len()
        invariant
            i <= tV.len(),
            tV == targets.deep_view(),
            tV.len() == targets@.len(),
            prefixV == prefix.deep_view(),
            ledm == ledger_map(led.deep_view()),
            ledger_entries_wf(led.deep_view()),
            rs == records_targets(tV, prefixV, ledm),
            o0 + rs == out.deep_view() + records_targets(tV.skip(i as int), prefixV, ledm),
        decreases tV.len() - i,
    {
        let ghost out_pre = out.deep_view();
        proof {
            assert(tV.skip(i as int)[0] == tV[i as int]);
            assert(tV.skip(i as int).drop_first() =~= tV.skip(i as int + 1));
        }
        let block = &targets[i];
        assert(block@ == tV[i as int]);
        let tname = "target".to_owned();
        let p_t = child_path(prefix, &tname);
        let p2 = child_path(&p_t, &block.cfg);
        collect_kind_tables(&block.tables, &p2, led, out);
        i += 1;
        proof {
            let fut = records_targets(tV.skip(i as int), prefixV, ledm);
            assert(out.deep_view() + fut =~= out_pre + records_targets(
                tV.skip(i as int - 1),
                prefixV,
                ledm,
            ));
        }
    }
    proof {
        assert(tV.skip(tV.len() as int) =~= Seq::<TargetBlockV>::empty());
        assert(out.deep_view() + Seq::<InputV>::empty() =~= out.deep_view());
        assert(out.deep_view() =~= o0 + rs);
    }
}

/// Record collection over one whole section.
fn collect_sections(
    s: &Sections,
    prefix: &Vec<String>,
    led: &Vec<LedgerEntry>,
    out: &mut Vec<DirectInput>,
)
    requires
        ledger_entries_wf(led.deep_view()),
    ensures
        final(out).deep_view() == old(out).deep_view() + records_sections(
            s@,
            prefix.deep_view(),
            ledger_map(led.deep_view()),
        ),
{
    let ghost o0 = out.deep_view();
    collect_kind_tables(&s.tables, prefix, led, out);
    collect_targets(&s.targets, prefix, led, out);
    proof {
        let a = records_kind_tables(s@.tables, prefix.deep_view(), ledger_map(led.deep_view()));
        let b = records_targets(s@.targets, prefix.deep_view(), ledger_map(led.deep_view()));
        assert(o0 + a + b =~= o0 + (a + b));
    }
}

/// List every dependency declaration of a manifest as the record a
/// decision receives, in visit order. Fails, touching nothing, exactly
/// when the reserved ledger location holds something that is not
/// table-like.
pub fn collect_records(m: &Manifest) -> (r: Result<Vec<DirectInput>, PatchError>)
    requires
        m.wf(),
    ensures
        match r {
            Ok(v) => !(m@.ledger is Malformed) && v.deep_view() == manifest_records(m@),
            Err(e) => m@.ledger is Malformed && e == PatchError::MalformedLedger,
        },
{
    let empty_led: Vec<LedgerEntry> = Vec::new();
    let ledref: &Vec<LedgerEntry> = match &m.ledger {
        LedgerState::Malformed => {
            return Err(PatchError::MalformedLedger);
        },
        LedgerState::Absent => &empty_led,
        LedgerState::Present(v) => v,
    };
    proof {
        if m@.ledger is Absent {
            assert(ledref.deep_view() =~= Seq::<crate::manifest::LedgerEntryV>::empty());
        }
        assert(ledger_map(ledref.deep_view()) == initial_ledger_map(m@.ledger));
    }
    let mut out: Vec<DirectInput> = Vec::new();
    let root_prefix: Vec<String> = Vec::new();
    proof {
        assert(root_prefix.deep_view() =~= Seq::<Seq<char>>::empty());
    }
    collect_sections(&m.root, &root_prefix, ledref, &mut out);
    match &m.workspace {
        Some(w) => {
            let mut wp: Vec<String> = Vec::new();
            vec_push_dv(&mut wp, "workspace".to_owned());
            proof {
                assert(wp.deep_view() =~= seq!["workspace"@]);
            }
            collect_sections(w, &wp, ledref, &mut out);
        },
        None => {},
    }
    proof {
        assert(Seq::<InputV>::empty() + records_sections(
            m@.root,
            seq![],
            initial_ledger_map(m@.ledger),
        ) =~= records_sections(m@.root, seq![], initial_ledger_map(m@.ledger)));
        if m@.workspace is None {
            assert(out.deep_view() + Seq::<InputV>::empty() =~= out.deep_view());
        }
        assert(out.deep_view() =~= manifest_records(m@));
    }
    Ok(out)
}

/// Apply one outcome per record of [`collect_records`], in the same
/// order: the executable form of [`apply_manifest_v`]. Fails, touching
/// nothing, exactly when the ledger location is malformed.
pub fn patch_manifest(m: &Manifest, outcomes: &Vec<Outcome>, force_inline: bool) -> (r: Result<
    PatchOutput,
    PatchError,
>)
    requires
        m.wf(),
        outcomes.deep_view().len() == manifest_records(m@).len(),
    ensures
        match r {
            Ok(o) => {
                let ap = apply_manifest_v(m@, outcomes.deep_view(), force_inline);
                &&& !(m@.ledger is Malformed)
                &&& o.manifest@ == ap.0
                &&& o.manifest.wf()
                &&& o.edits.deep_view() == ap.1
            },
            Err(e) => m@.ledger is Malformed && e == PatchError::MalformedLedger,
        },
{
    let mut ledvec: Vec<LedgerEntry> = match &m.ledger {
        LedgerState::Malformed => {
            return Err(PatchError::MalformedLedger);
        },
        LedgerState::Absent => Vec::new(),
        LedgerState::Present(v) => clone_ledger_entries(v),
    };
    proof {
        if m@.ledger is Absent {
            assert(ledvec.deep_view() =~= Seq::<crate::manifest::LedgerEntryV>::empty());
        }
        assert(ledger_map(ledvec.deep_view()) == initial_ledger_map(m@.ledger));
    }
    let ghost led0 = initial_ledger_map(m@.ledger);
    let ghost outsV = outcomes.deep_view();
    let mut idx: usize = 0;
    let mut edits: Vec<DocEdit> = Vec::new();
    let root_prefix: Vec<String> = Vec::new();
    proof {
        assert(root_prefix.deep_view() =~= Seq::<Seq<char>>::empty());
        assert(outsV.skip(0) =~= outsV);
        if m@.workspace is Some {
            lemma_records_sections_led(m@.workspace->0, seq!["workspace"@], led0, led0);
        }
    }
    let ghost rr = apply_sections(m@.root, seq![], led0, outsV, force_inline);
    let new_root = apply_sections_exec(
        &m.root,
        &root_prefix,
        &mut ledvec,
        outcomes,
        &mut idx,
        force_inline,
        &mut edits,
    );
    proof {
        lemma_apply_sections_used(m@.root, seq![], led0, outsV, force_inline);
        assert(idx == rr.3);
        assert(ledger_map(ledvec.deep_view()) == rr.1);
        assert(outsV.skip(idx as int) =~= outsV.skip(rr.3 as int));
    }
    let new_ws = match &m.workspace {
        Some(w) => {
            let mut wp: Vec<String> = Vec::new();
            vec_push_dv(&mut wp, "workspace".to_owned());
            proof {
                assert(wp.deep_view() =~= seq!["workspace"@]);
                lemma_records_sections_led(w@, seq!["workspace"@], rr.1, led0);
            }
            Some(
                apply_sections_exec(
                    w,
                    &wp,
                    &mut ledvec,
                    outcomes,
                    &mut idx,
                    force_inline,
                    &mut edits,
                ),
            )
        },
        None => None,
    };
    let ghost finalmap = ledger_map(ledvec.deep_view());
    let new_ledger = match &m.ledger {
        LedgerState::Present(_) => LedgerState::Present(ledvec),
        _ => {
            if ledvec.len() == 0 {
                proof {
                    assert(ledvec.deep_view() =~= Seq::<crate::manifest::LedgerEntryV>::empty());
                    assert(finalmap == Map::<Seq<Seq<char>>, SourceV>::empty());
                }
                LedgerState::Absent
            } else {
                proof {
                    crate::ledger::lemma_ledger_map_at(
                        ledvec.deep_view(),
                        ledvec.deep_view().len() - 1,
                    );
                    assert(finalmap.dom().contains(
                        ledvec.deep_view().last().path,
                    ));
                    assert(finalmap != Map::<Seq<Seq<char>>, SourceV>::empty());
                }
                LedgerState::Present(ledvec)
            }
        },
    };
    let result = Manifest {
        has_package: m.has_package,
        root: new_root,
        workspace: new_ws,
        ledger: new_ledger,
    };
    proof {
        let ap = apply_manifest_v(m@, outsV, force_inline);
        assert(result@ =~~= ap.0);
        assert(edits.deep_view() =~= ap.1);
    }
    Ok(PatchOutput { manifest: result, edits })
}

/// Restore every declaration that has a ledger entry to its recorded
/// original source: a patch run whose decision always answers with the
/// record's original source. Declarations without an entry are untouched.
pub fn revert_manifest(m: &Manifest) -> (r: Result<PatchOutput, PatchError>)
    requires
        m.wf(),
    ensures
        match r {
            Ok(o) => {
                let ap = apply_manifest_v(
                    m@,
                    revert_outcomes(manifest_records(m@)),
                    false,
                );
                &&& !(m@.ledger is Malformed)
                &&& o.manifest@ == ap.0
                &&& o.manifest.wf()
                &&& o.edits.deep_view() == ap.1
            },
            Err(e) => m@.ledger is Malformed && e == PatchError::MalformedLedger,
        },
{
    let records = match collect_records(m) {
        Ok(v) => v,
        Err(e) => {
            return Err(e);
        },
    };
    let mut outs: Vec<Outcome> = Vec::new();
    let mut i: usize = 0;
    while i < records.len()
        invariant
            i <= records@.len(),
            records.deep_view() == manifest_records(m@),
            records.deep_view().len() == records@.len(),
            outs.deep_view().len() == i,
            forall|k: int|
                0 <= k < i ==> outs.deep_view()[k] == OutcomeV::Replace(
                    records.deep_view()[k].original_source,
                ),
        decreases records@.len() - i,
    {
        assert(records.deep_view()[i as int] == records@[i as int]@);
        vec_push_dv(&mut outs, Outcome::Replace(records[i].original_source.clone()));
        i += 1;
    }
    proof {
        assert(outs.deep_view() =~= revert_outcomes(manifest_records(m@)));
    }
    patch_manifest(m, &outs, false)
}

/// Discard the backup ledger: the manifest keeps every live declaration
/// and loses all recorded originals. Deleting an absent ledger is a
/// no-op, so freezing is idempotent; a malformed ledger location is
/// simply deleted too.
pub fn freeze_manifest(m: Manifest) -> (r: (Manifest, Vec<DocEdit>))
    ensures
        r.0@ == (ManifestV { ledger: LedgerV::Absent, ..m@ }),
        r.0.wf(),
        r.1.deep_view() == (if m@.ledger is Absent {
            Seq::<EditV>::empty()
        } else {
            seq![EditV::ClearLedger]
        }),
{
    let Manifest { has_package, root, workspace, ledger } = m;
    let mut edits: Vec<DocEdit> = Vec::new();
    match &ledger {
        LedgerState::Absent => {},
        _ => {
            vec_push_dv(&mut edits, DocEdit::ClearLedger);
            proof {
                assert(edits.deep_view() =~= seq![EditV::ClearLedger]);
            }
        },
    }
    (
        Manifest { has_package, root, workspace, ledger: LedgerState::Absent },
        edits,
    )
}

} // verus!
