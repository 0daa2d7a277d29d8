//! Resolver for nested configuration documents whose string leaves may embed
//! template expressions referencing other keys of the same document, plus a
//! small library of IP-network filter functions usable from those templates.
//!
//! The resolver discovers the free variables of every template, builds a
//! dependency graph over the document's top-level keys, evaluates the keys in
//! dependency order, and finally substitutes every remaining template in the
//! tree against the resolved set of globals.

use vstd::prelude::*;

pub mod engine;
pub mod eval;
pub mod extract;
pub mod filters;
pub mod graph;
pub mod ip;
pub mod resolve;
pub mod subst;
pub mod text;
pub mod value;

pub use value::JsonVal;
pub use resolve::render;

verus! {

/// How resolving a document fails.
#[derive(Debug)]
pub enum ResolveError {
    /// Strings that carry a template marker but do not parse as templates,
    /// aggregated over the whole document.
    InvalidTemplates(Vec<String>),
    /// The failures of the final substitution pass, aggregated over the
    /// whole document.
    RenderErrors(Vec<String>),
    /// The dependency graph admits no evaluation order.
    CycleError,
}

} // verus!
