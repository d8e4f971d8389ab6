//! A layered associative container for tracking nested lexical scopes.
//!
//! [`map::ScopeMap`] maps keys to the innermost visible binding, layer by
//! layer; [`set::ScopeSet`] is the payload-free specialization.

pub mod map;
pub mod set;
