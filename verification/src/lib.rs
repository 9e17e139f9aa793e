//! Rewriting of dependency declarations across package manifests.
//!
//! The crate models a manifest's dependency tables, walks every declaration,
//! applies a caller-chosen decision to each one, and keeps a backup ledger
//! inside the manifest so that every change can be undone later:
//!
//! * [`engine::collect_records`] lists the declarations of a manifest as
//!   [`source::DirectInput`] records, the input handed to a decision;
//! * [`engine::patch_manifest`] applies one decision outcome per record,
//!   maintaining the ledger and emitting the minimal document edits;
//! * [`engine::revert_manifest`] restores every recorded original source;
//! * [`engine::freeze_manifest`] discards the ledger;
//! * [`graph::collect_graph_records`] and [`graph::build_override_output`]
//!   compute a consolidated override section from a resolved, possibly
//!   cyclic, dependency graph.
//!
//! [`laws`] states and proves the engine's guarantees over whole
//! manifests: minimality of an all-unchanged run, the freeze property,
//! idempotence of patching, and the full revert round trip — patching
//! preserves restorability and revert restores every declaration — plus
//! backup correctness at every declaration step.

pub mod engine;
pub mod graph;
pub mod laws;
pub mod ledger;
pub mod manifest;
pub mod source;
pub mod util;
