//! Source descriptors: where a dependency's code comes from, and the record
//! handed to a decision for every declaration.

use vstd::prelude::*;

verus! {

/// The complete description of where a dependency is obtained.
///
/// Every field is independently present or absent and equality is
/// field-wise: no normalization is performed, so `version = "1"` and
/// `version = "1.0"` are distinct descriptors.
#[derive(Debug)]
pub struct DirectSource {
    /// Package version requirement; absent when the package is not obtained
    /// from a registry.
    pub version: Option<String>,
    /// Alias or URL of a non-default registry; absent for the default one.
    pub registry: Option<String>,
    /// Full path to the package directory.
    pub path: Option<String>,
    /// Git repository URL.
    pub git: Option<String>,
    /// Git revision pin.
    pub rev: Option<String>,
    /// Git tag pin.
    pub tag: Option<String>,
    /// Git branch pin.
    pub branch: Option<String>,
    /// Whether the declaration defers to the workspace-wide pinned version.
    pub workspace: Option<bool>,
}

/// Mathematical image of a [`DirectSource`]: each text field viewed as a
/// sequence of characters.
pub struct SourceV {
    pub version: Option<Seq<char>>,
    pub registry: Option<Seq<char>>,
    pub path: Option<Seq<char>>,
    pub git: Option<Seq<char>>,
    pub rev: Option<Seq<char>>,
    pub tag: Option<Seq<char>>,
    pub branch: Option<Seq<char>>,
    pub workspace: Option<bool>,
}

impl View for DirectSource {
    type V = SourceV;

    open spec fn view(&self) -> SourceV {
        SourceV {
            version: self.version.deep_view(),
            registry: self.registry.deep_view(),
            path: self.path.deep_view(),
            git: self.git.deep_view(),
            rev: self.rev.deep_view(),
            tag: self.tag.deep_view(),
            branch: self.branch.deep_view(),
            workspace: self.workspace,
        }
    }
}

impl DeepView for DirectSource {
    type V = SourceV;

    open spec fn deep_view(&self) -> SourceV {
        self@
    }
}

/// A descriptor that pins nothing but a registry version.
pub open spec fn version_only_v(v: Seq<char>) -> SourceV {
    SourceV {
        version: Some(v),
        registry: None,
        path: None,
        git: None,
        rev: None,
        tag: None,
        branch: None,
        workspace: None,
    }
}

/// Whether `version` is the only field present in `s`.
pub open spec fn is_version_only(s: SourceV) -> bool {
    &&& s.version is Some
    &&& s.registry is None
    &&& s.path is None
    &&& s.git is None
    &&& s.rev is None
    &&& s.tag is None
    &&& s.branch is None
    &&& s.workspace is None
}

impl DirectSource {
    /// A descriptor with every field absent.
    pub fn empty() -> (r: DirectSource)
        ensures
            r@ == (SourceV {
                version: None,
                registry: None,
                path: None,
                git: None,
                rev: None,
                tag: None,
                branch: None,
                workspace: None,
            }),
    {
        DirectSource {
            version: None,
            registry: None,
            path: None,
            git: None,
            rev: None,
            tag: None,
            branch: None,
            workspace: None,
        }
    }

    /// The descriptor equivalent of a bare version-string declaration.
    pub fn version_only(v: String) -> (r: DirectSource)
        ensures
            r@ == version_only_v(v@),
    {
        DirectSource {
            version: Some(v),
            registry: None,
            path: None,
            git: None,
            rev: None,
            tag: None,
            branch: None,
            workspace: None,
        }
    }
}

/// Equality of optional strings, decided on their character sequences.
pub fn opt_str_eq(a: &Option<String>, b: &Option<String>) -> (r: bool)
    ensures
        r == (a.deep_view() == b.deep_view()),
{
    match (a, b) {
        (Some(x), Some(y)) => x.eq(y),
        (None, None) => true,
        _ => false,
    }
}

/// Clone of an optional string, exact on the character sequences.
pub fn opt_str_clone(a: &Option<String>) -> (r: Option<String>)
    ensures
        r.deep_view() == a.deep_view(),
{
    match a {
        Some(x) => Some(x.clone()),
        None => None,
    }
}

impl Clone for DirectSource {
    /// Field-exact copy.
    fn clone(&self) -> (r: Self)
        ensures
            r@ == self@,
    {
        DirectSource {
            version: opt_str_clone(&self.version),
            registry: opt_str_clone(&self.registry),
            path: opt_str_clone(&self.path),
            git: opt_str_clone(&self.git),
            rev: opt_str_clone(&self.rev),
            tag: opt_str_clone(&self.tag),
            branch: opt_str_clone(&self.branch),
            workspace: self.workspace,
        }
    }
}

impl PartialEq for DirectSource {
    fn eq(&self, other: &Self) -> (r: bool) {
        &&& opt_str_eq(&self.version, &other.version)
        &&& opt_str_eq(&self.registry, &other.registry)
        &&& opt_str_eq(&self.path, &other.path)
        &&& opt_str_eq(&self.git, &other.git)
        &&& opt_str_eq(&self.rev, &other.rev)
        &&& opt_str_eq(&self.tag, &other.tag)
        &&& opt_str_eq(&self.branch, &other.branch)
        &&& self.workspace == other.workspace
    }
}

impl vstd::std_specs::cmp::PartialEqSpecImpl for DirectSource {
    open spec fn obeys_eq_spec() -> bool {
        true
    }

    open spec fn eq_spec(&self, other: &Self) -> bool {
        self@ == other@
    }
}

/// What a decision receives for one dependency declaration.
#[derive(Debug)]
pub struct DirectInput {
    /// The key under which the dependency is declared.
    pub name: String,
    /// The actual package identity: an explicit `package` field if present,
    /// otherwise equal to `name`.
    pub package: String,
    /// The source the declaration currently carries.
    pub source: DirectSource,
    /// The source recorded in the backup ledger for this declaration, or
    /// `source` itself when no backup exists yet.
    pub original_source: DirectSource,
}

/// Mathematical image of a [`DirectInput`].
pub struct InputV {
    pub name: Seq<char>,
    pub package: Seq<char>,
    pub source: SourceV,
    pub original_source: SourceV,
}

impl View for DirectInput {
    type V = InputV;

    open spec fn view(&self) -> InputV {
        InputV {
            name: self.name@,
            package: self.package@,
            source: self.source@,
            original_source: self.original_source@,
        }
    }
}

impl DeepView for DirectInput {
    type V = InputV;

    open spec fn deep_view(&self) -> InputV {
        self@
    }
}

impl Clone for DirectInput {
    /// Field-exact copy.
    fn clone(&self) -> (r: Self)
        ensures
            r@ == self@,
    {
        DirectInput {
            name: self.name.clone(),
            package: self.package.clone(),
            source: self.source.clone(),
            original_source: self.original_source.clone(),
        }
    }
}

impl PartialEq for DirectInput {
    fn eq(&self, other: &Self) -> (r: bool) {
        &&& self.name.eq(&other.name)
        &&& self.package.eq(&other.package)
        &&& self.source == other.source
        &&& self.original_source == other.original_source
    }
}

impl vstd::std_specs::cmp::PartialEqSpecImpl for DirectInput {
    open spec fn obeys_eq_spec() -> bool {
        true
    }

    open spec fn eq_spec(&self, other: &Self) -> bool {
        self@ == other@
    }
}

/// What a decision returns for one declaration: leave it alone, or replace
/// its source with the given descriptor.
#[derive(Debug)]
pub enum Outcome {
    Unchanged,
    Replace(DirectSource),
}

/// Mathematical image of an [`Outcome`].
pub enum OutcomeV {
    Unchanged,
    Replace(SourceV),
}

impl View for Outcome {
    type V = OutcomeV;

    open spec fn view(&self) -> OutcomeV {
        match self {
            Outcome::Unchanged => OutcomeV::Unchanged,
            Outcome::Replace(s) => OutcomeV::Replace(s@),
        }
    }
}

impl DeepView for Outcome {
    type V = OutcomeV;

    open spec fn deep_view(&self) -> OutcomeV {
        self@
    }
}

impl Clone for Outcome {
    /// Field-exact copy.
    fn clone(&self) -> (r: Self)
        ensures
            r@ == self@,
    {
        match self {
            Outcome::Unchanged => Outcome::Unchanged,
            Outcome::Replace(s) => Outcome::Replace(s.clone()),
        }
    }
}

} // verus!
