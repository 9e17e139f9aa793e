//! The model of one manifest document: its dependency tables, the
//! platform-conditional target tables, the optional workspace section, and
//! the backup ledger embedded in the document's metadata area.
//!
//! Only what the patch engine reads is modelled. Everything else in a
//! document (comments, unrelated keys, layout) is untouched by construction:
//! the engine emits targeted [`DocEdit`]s instead of rewriting documents.

use vstd::prelude::*;

use crate::source::{DirectSource, SourceV, opt_str_clone, opt_str_eq, version_only_v};

verus! {

/// A dependency declaration written as a table: an optional explicit
/// `package` rename, the source fields, and the number of other keys the
/// table carries (features, flags, and the like), which the engine never
/// touches but must count to know when a table can collapse to a bare
/// version string.
#[derive(Debug)]
pub struct DeclTable {
    pub package: Option<String>,
    pub source: DirectSource,
    pub extra: u64,
}

/// Mathematical image of a [`DeclTable`].
#[verifier::ext_equal]
pub struct DeclTableV {
    pub package: Option<Seq<char>>,
    pub source: SourceV,
    pub extra: u64,
}

impl View for DeclTable {
    type V = DeclTableV;

    open spec fn view(&self) -> DeclTableV {
        DeclTableV { package: self.package.deep_view(), source: self.source@, extra: self.extra }
    }
}

impl Clone for DeclTable {
    /// Field-exact copy.
    fn clone(&self) -> (r: Self)
        ensures
            r@ == self@,
    {
        DeclTable {
            package: opt_str_clone(&self.package),
            source: self.source.clone(),
            extra: self.extra,
        }
    }
}

/// The value of one dependency declaration: a bare version string, a table,
/// or any other shape, which the engine skips.
#[derive(Debug)]
pub enum DepValue {
    VersionStr(String),
    TableForm(DeclTable),
    Other,
}

/// Mathematical image of a [`DepValue`].
#[verifier::ext_equal]
pub enum DepValueV {
    VersionStr(Seq<char>),
    TableForm(DeclTableV),
    Other,
}

impl View for DepValue {
    type V = DepValueV;

    open spec fn view(&self) -> DepValueV {
        match self {
            DepValue::VersionStr(s) => DepValueV::VersionStr(s@),
            DepValue::TableForm(t) => DepValueV::TableForm(t@),
            DepValue::Other => DepValueV::Other,
        }
    }
}

impl Clone for DepValue {
    /// Field-exact copy.
    fn clone(&self) -> (r: Self)
        ensures
            r@ == self@,
    {
        match self {
            DepValue::VersionStr(s) => DepValue::VersionStr(s.clone()),
            DepValue::TableForm(t) => DepValue::TableForm(t.clone()),
            DepValue::Other => DepValue::Other,
        }
    }
}

/// Every declaration form seen as a table: a bare version string stands for
/// a table holding nothing but that version.
pub open spec fn table_form_v(v: DepValueV) -> DeclTableV {
    match v {
        DepValueV::VersionStr(s) => DeclTableV {
            package: None,
            source: version_only_v(s),
            extra: 0,
        },
        DepValueV::TableForm(t) => t,
        DepValueV::Other => DeclTableV {
            package: None,
            source: SourceV {
                version: None,
                registry: None,
                path: None,
                git: None,
                rev: None,
                tag: None,
                branch: None,
                workspace: None,
            },
            extra: 0,
        },
    }
}

/// One entry of a dependency table: the declaration key and its value.
#[derive(Debug)]
pub struct DepEntry {
    pub name: String,
    pub value: DepValue,
}

/// Mathematical image of a [`DepEntry`].
#[verifier::ext_equal]
pub struct DepEntryV {
    pub name: Seq<char>,
    pub value: DepValueV,
}

impl View for DepEntry {
    type V = DepEntryV;

    open spec fn view(&self) -> DepEntryV {
        DepEntryV { name: self.name@, value: self.value@ }
    }
}

impl DeepView for DepEntry {
    type V = DepEntryV;

    open spec fn deep_view(&self) -> DepEntryV {
        self@
    }
}

impl Clone for DepEntry {
    /// Field-exact copy.
    fn clone(&self) -> (r: Self)
        ensures
            r@ == self@,
    {
        DepEntry { name: self.name.clone(), value: self.value.clone() }
    }
}

/// The three dependency tables a section may carry.
#[derive(Debug)]
pub struct KindTables {
    pub dependencies: Option<Vec<DepEntry>>,
    pub dev_dependencies: Option<Vec<DepEntry>>,
    pub build_dependencies: Option<Vec<DepEntry>>,
}

/// Mathematical image of [`KindTables`].
#[verifier::ext_equal]
pub struct KindTablesV {
    pub dependencies: Option<Seq<DepEntryV>>,
    pub dev_dependencies: Option<Seq<DepEntryV>>,
    pub build_dependencies: Option<Seq<DepEntryV>>,
}

impl View for KindTables {
    type V = KindTablesV;

    open spec fn view(&self) -> KindTablesV {
        KindTablesV {
            dependencies: self.dependencies.deep_view(),
            dev_dependencies: self.dev_dependencies.deep_view(),
            build_dependencies: self.build_dependencies.deep_view(),
        }
    }
}

/// The dependency tables nested under one platform-conditional target.
#[derive(Debug)]
pub struct TargetBlock {
    pub cfg: String,
    pub tables: KindTables,
}

/// Mathematical image of a [`TargetBlock`].
#[verifier::ext_equal]
pub struct TargetBlockV {
    pub cfg: Seq<char>,
    pub tables: KindTablesV,
}

impl View for TargetBlock {
    type V = TargetBlockV;

    open spec fn view(&self) -> TargetBlockV {
        TargetBlockV { cfg: self.cfg@, tables: self.tables@ }
    }
}

impl DeepView for TargetBlock {
    type V = TargetBlockV;

    open spec fn deep_view(&self) -> TargetBlockV {
        self@
    }
}

/// One section of a manifest: the root tables and the target tables. The
/// manifest root is one section; the `workspace` table, when present, is a
/// second one.
#[derive(Debug)]
pub struct Sections {
    pub tables: KindTables,
    pub targets: Vec<TargetBlock>,
}

/// Mathematical image of [`Sections`].
#[verifier::ext_equal]
pub struct SectionsV {
    pub tables: KindTablesV,
    pub targets: Seq<TargetBlockV>,
}

impl View for Sections {
    type V = SectionsV;

    open spec fn view(&self) -> SectionsV {
        SectionsV { tables: self.tables@, targets: self.targets.deep_view() }
    }
}

/// One backup entry: the key path of a declaration and the source it had
/// before it was first changed.
#[derive(Debug)]
pub struct LedgerEntry {
    pub path: Vec<String>,
    pub original: DirectSource,
}

/// Mathematical image of a [`LedgerEntry`].
#[verifier::ext_equal]
pub struct LedgerEntryV {
    pub path: Seq<Seq<char>>,
    pub original: SourceV,
}

impl View for LedgerEntry {
    type V = LedgerEntryV;

    open spec fn view(&self) -> LedgerEntryV {
        LedgerEntryV { path: self.path.deep_view(), original: self.original@ }
    }
}

impl DeepView for LedgerEntry {
    type V = LedgerEntryV;

    open spec fn deep_view(&self) -> LedgerEntryV {
        self@
    }
}

/// The backup ledger as found at the reserved metadata location of a
/// document: absent, a table of entries, or present but not table-like,
/// which is fatal for the whole document.
#[derive(Debug)]
pub enum LedgerState {
    Absent,
    Present(Vec<LedgerEntry>),
    Malformed,
}

/// The ledger entries as a map from key path to recorded original source.
/// A later entry for the same path overrides an earlier one, as writing
/// twice to one document location would.
pub open spec fn ledger_map(s: Seq<LedgerEntryV>) -> Map<Seq<Seq<char>>, SourceV>
    decreases s.len(),
{
    if s.len() == 0 {
        Map::empty()
    } else {
        ledger_map(s.drop_last()).insert(s.last().path, s.last().original)
    }
}

/// Mathematical image of a [`LedgerState`].
#[verifier::ext_equal]
pub enum LedgerV {
    Absent,
    Present(Map<Seq<Seq<char>>, SourceV>),
    Malformed,
}

impl View for LedgerState {
    type V = LedgerV;

    open spec fn view(&self) -> LedgerV {
        match self {
            LedgerState::Absent => LedgerV::Absent,
            LedgerState::Present(v) => LedgerV::Present(ledger_map(v.deep_view())),
            LedgerState::Malformed => LedgerV::Malformed,
        }
    }
}

/// One whole manifest, as far as the engine reads it.
#[derive(Debug)]
pub struct Manifest {
    /// Whether the document has a `package` table; this decides where the
    /// ledger lives (`package.metadata` against `workspace.metadata`).
    pub has_package: bool,
    /// The root dependency tables and targets.
    pub root: Sections,
    /// The `workspace` section, when the document is a workspace root.
    pub workspace: Option<Sections>,
    /// The backup ledger found in the document.
    pub ledger: LedgerState,
}

/// Mathematical image of a [`Manifest`].
#[verifier::ext_equal]
pub struct ManifestV {
    pub has_package: bool,
    pub root: SectionsV,
    pub workspace: Option<SectionsV>,
    pub ledger: LedgerV,
}

impl View for Manifest {
    type V = ManifestV;

    open spec fn view(&self) -> ManifestV {
        ManifestV {
            has_package: self.has_package,
            root: self.root@,
            workspace: match &self.workspace {
                Some(s) => Some(s@),
                None => None,
            },
            ledger: self.ledger@,
        }
    }
}

/// No two ledger entries address the same key path.
pub open spec fn ledger_entries_wf(s: Seq<LedgerEntryV>) -> bool {
    forall|i: int, j: int| 0 <= i < j < s.len() ==> s[i].path != s[j].path
}

impl Manifest {
    /// The structural invariant of a manifest value: its ledger holds at
    /// most one entry per key path. Conversions from documents establish
    /// it, since a document table holds each key once; the engine
    /// preserves it.
    pub open spec fn wf(&self) -> bool {
        match self.ledger {
            LedgerState::Present(v) => ledger_entries_wf(v.deep_view()),
            _ => true,
        }
    }
}

} // verus!
