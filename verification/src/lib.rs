//! An OWL 2 RL reasoner over RDF graphs.
//!
//! The reasoner interns RDF terms into integer identifiers, saturates the
//! resulting triple set under the OWL 2 RL rules, and reports rule violations
//! as structured diagnostics.
pub mod diagnostics;
pub mod relation;
pub mod error;
pub mod common;
pub mod index;
pub mod rules;
pub mod engine;
pub mod rdf_lists;
pub mod closure;
pub mod complement;
pub mod violations;
pub mod reasoner;
pub mod document;
pub mod cli;
pub mod laws;
