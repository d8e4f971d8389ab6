//! A layered set of string keys, for tracking which names are in scope.
//!
//! [`ScopeSet`] is a [`ScopeMap`] with no payload; it forwards every
//! operation and adds one derived query, the depth of a key below the top.

use crate::map::{MapModel, ScopeMap};
use vstd::prelude::*;

verus! {

/// A layered set of `String` keys: a [`ScopeMap`] whose bindings carry no
/// payload. Its model is the map model with unit values.
pub struct ScopeSet {
    map: ScopeMap<()>,
}

impl View for ScopeSet {
    type V = MapModel<()>;

    closed spec fn view(&self) -> MapModel<()> {
        self.map@
    }
}

impl ScopeSet {
    /// The set is well formed: its underlying map is.
    pub closed spec fn wf(self) -> bool {
        self.map.wf()
    }

    /// Creates an empty set with a single base layer.
    pub fn new() -> (r: ScopeSet)
        ensures
            r.wf(),
            r@ == MapModel::<()>::empty(),
    {
        ScopeSet { map: ScopeMap::new() }
    }

    /// Creates an empty set sized for at least `capacity` keys.
    pub fn with_capacity(capacity: usize) -> (r: ScopeSet)
        ensures
            r.wf(),
            r@ == MapModel::<()>::empty(),
    {
        ScopeSet { map: ScopeMap::with_capacity(capacity) }
    }

    /// Creates an empty set that hashes keys with the given state.
    pub fn with_hasher(hash_builder: std::collections::hash_map::RandomState) -> (r: ScopeSet)
        ensures
            r.wf(),
            r@ == MapModel::<()>::empty(),
    {
        ScopeSet { map: ScopeMap::with_hasher(hash_builder) }
    }

    /// Creates an empty set with the given capacity and hash state.
    pub fn with_capacity_and_hasher(
        capacity: usize,
        hash_builder: std::collections::hash_map::RandomState,
    ) -> (r: ScopeSet)
        ensures
            r.wf(),
            r@ == MapModel::<()>::empty(),
    {
        ScopeSet { map: ScopeMap::with_capacity_and_hasher(capacity, hash_builder) }
    }

    /// Whether no key was ever defined.
    pub fn is_empty(&self) -> (r: bool)
        ensures
            r == (self@.keys.len() == 0),
    {
        self.map.is_empty()
    }

    /// How many elements the underlying index can hold without
    /// reallocating; at least [`Self::len`].
    pub fn capacity(&self) -> (r: usize)
        ensures
            r >= self@.keys.len(),
    {
        self.map.capacity()
    }

    /// The number of distinct keys ever defined.
    pub fn len(&self) -> (r: usize)
        ensures
            r == self@.keys.len(),
    {
        self.map.len()
    }

    /// The number of layers; always at least 1.
    pub fn depth(&self) -> (r: usize)
        requires
            self.wf(),
        ensures
            r == self@.layers.len(),
            r >= 1,
    {
        self.map.layer_count()
    }

    /// Adds a new, empty layer.
    pub fn push_layer(&mut self)
        requires
            old(self).wf(),
        ensures
            final(self).wf(),
            final(self)@ == old(self)@.push(),
    {
        self.map.push_layer()
    }

    /// Removes the topmost layer unless only the base layer remains,
    /// retracting every key it defined. Returns whether a layer was removed.
    pub fn pop_layer(&mut self) -> (r: bool)
        requires
            old(self).wf(),
        ensures
            final(self).wf(),
            r == old(self)@.can_pop(),
            final(self)@ == old(self)@.pop(),
    {
        self.map.pop_layer()
    }

    /// Discards every key and every additional layer, resetting the set to
    /// a single empty base layer.
    pub fn clear_all(&mut self)
        requires
            old(self).wf(),
        ensures
            final(self).wf(),
            final(self)@ == MapModel::<()>::empty(),
    {
        self.map.clear_all()
    }

    /// Retracts every key the topmost layer introduced, without removing
    /// the layer itself.
    pub fn clear_top(&mut self)
        requires
            old(self).wf(),
        ensures
            final(self).wf(),
            final(self)@ == old(self)@.clear_top(),
    {
        self.map.clear_top()
    }

    /// Adds `key` to the topmost layer.
    pub fn define(&mut self, key: String)
        requires
            old(self).wf(),
        ensures
            final(self).wf(),
            final(self)@ == old(self)@.define(key@, ()),
    {
        self.map.define(key, ())
    }

    /// Removes `key` from the topmost layer if that layer itself introduced
    /// it. Returns whether anything was removed.
    pub fn delete(&mut self, key: String) -> (r: bool)
        requires
            old(self).wf(),
        ensures
            final(self).wf(),
            r == old(self)@.can_delete(key@),
            final(self)@ == old(self)@.delete(key@),
    {
        self.map.delete(key)
    }

    /// Whether any layer contains `key`.
    pub fn contains(&self, key: &String) -> (r: bool)
        requires
            self.wf(),
        ensures
            r == self@.visible(key@),
    {
        self.map.contains_key(key)
    }

    /// Whether the topmost layer itself contains `key`, as opposed to one
    /// merely inherited from an outer layer.
    pub fn contains_at_top(&self, key: &String) -> (r: bool)
        requires
            self.wf(),
        ensures
            r == self@.at_top(key@),
    {
        self.map.contains_key_at_top(key)
    }

    /// How many layers below the top the most recent definition of `key`
    /// lies; 0 means the current layer contains it. `None` if `key` is not
    /// in the set at all.
    pub fn depth_of(&self, key: &String) -> (r: Option<usize>)
        requires
            self.wf(),
        ensures
            r.is_some() == self@.depth_of(key@).is_some(),
            r.is_some() ==> Some(r.unwrap() as int) == self@.depth_of(key@),
    {
        self.map.depth_of(key)
    }
}

impl Default for ScopeSet {
    /// Equivalent to [`ScopeSet::new`].
    fn default() -> (r: Self)
        ensures
            r.wf(),
            r@ == MapModel::<()>::empty(),
    {
        ScopeSet::new()
    }
}

} // verus!
