//! A symbolic, constraint-based inference layer for tensor properties.
//!
//! Operator rules refer to locations inside a node's fact trees through
//! typed proxies, each carrying a [`path::Path`] address. Partial knowledge
//! about each addressed property is a fact with a unification (`meet`)
//! operation, and a fixpoint solver refines the facts until no rule makes
//! further progress or a contradiction is found.

pub mod path;
pub mod cache;
pub mod fact;
pub mod proxies;
pub mod solver;
pub mod slots;
