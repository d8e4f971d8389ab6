//! A layered map from string keys to values, modelling nested lexical scopes.
//!
//! The map keeps a stack of layers; a lookup returns the binding of the
//! innermost layer that defined the key, and popping a layer un-shadows
//! everything that layer introduced.

use indexmap::IndexSet;
use std::collections::hash_map::RandomState;
use vstd::prelude::*;

verus! {

/// The mathematical model of a [`ScopeMap`].
///
/// A key is identified by its *slot*: the position at which it was first
/// defined. Slots are never reused or invalidated; a key whose bindings have
/// all been retracted keeps its slot with an empty shadow stack.
#[verifier::ext_equal]
pub struct MapModel<V> {
    /// The keys ever defined, in slot order.
    pub keys: Seq<Seq<char>>,
    /// Per slot, the shadow stack: one value per layer that holds a distinct
    /// definition for the key, innermost last.
    pub stacks: Seq<Seq<V>>,
    /// Per layer, the set of slots that received their first definition of
    /// that layer while it was the top. The bottom layer is permanent.
    pub layers: Seq<Set<int>>,
}

/// How many of the given layers contain `slot`.
pub open spec fn layer_hits(layers: Seq<Set<int>>, slot: int) -> int
    decreases layers.len(),
{
    if layers.len() == 0 {
        0
    } else {
        layer_hits(layers.drop_last(), slot) + if layers.last().contains(slot) {
            1int
        } else {
            0int
        }
    }
}

/// How many of the topmost `skip` layers contain `slot`.
pub open spec fn top_hits(layers: Seq<Set<int>>, slot: int, skip: int) -> int
    decreases layers.len(),
{
    if skip <= 0 || layers.len() == 0 {
        0
    } else {
        (if layers.last().contains(slot) {
            1int
        } else {
            0int
        }) + top_hits(layers.drop_last(), slot, skip - 1)
    }
}

/// The number of layers scanned from the top before one contains `slot`,
/// or `None` if no layer does.
pub open spec fn scan_depth(layers: Seq<Set<int>>, slot: int) -> Option<int>
    decreases layers.len(),
{
    if layers.len() == 0 {
        None
    } else if layers.last().contains(slot) {
        Some(0int)
    } else {
        match scan_depth(layers.drop_last(), slot) {
            Some(d) => Some(d + 1),
            None => None,
        }
    }
}

impl<V> MapModel<V> {
    /// Well-formedness: keys are distinct, slots line up with stacks, every
    /// layer speaks only of existing slots, and each stack is exactly as deep
    /// as the number of layers holding a definition for its key.
    pub open spec fn inv(self) -> bool {
        &&& self.stacks.len() == self.keys.len()
        &&& self.layers.len() >= 1
        &&& forall|i: int, j: int|
            0 <= i < j < self.keys.len() ==> self.keys[i] != self.keys[j]
        &&& forall|l: int, s: int|
            0 <= l < self.layers.len() && #[trigger] self.layers[l].contains(s) ==> 0 <= s
                < self.keys.len()
        &&& forall|s: int|
            0 <= s < self.stacks.len() ==> #[trigger] self.stacks[s].len() == layer_hits(
                self.layers,
                s,
            )
    }

    /// The state of a freshly created map: no keys, one empty base layer.
    pub open spec fn empty() -> Self {
        MapModel { keys: Seq::empty(), stacks: Seq::empty(), layers: seq![Set::empty()] }
    }

    /// Whether `k` ever received a definition (its slot exists).
    pub open spec fn has_key(self, k: Seq<char>) -> bool {
        exists|i: int| 0 <= i < self.keys.len() && self.keys[i] == k
    }

    /// The slot of `k`; meaningful only when `has_key(k)`.
    pub open spec fn slot_of(self, k: Seq<char>) -> int {
        choose|i: int| 0 <= i < self.keys.len() && self.keys[i] == k
    }

    /// Whether `k` is currently bound in some layer.
    pub open spec fn visible(self, k: Seq<char>) -> bool {
        self.has_key(k) && self.stacks[self.slot_of(k)].len() > 0
    }

    /// The innermost visible binding of `k`, if any.
    pub open spec fn get(self, k: Seq<char>) -> Option<V> {
        if self.visible(k) {
            Some(self.stacks[self.slot_of(k)].last())
        } else {
            None
        }
    }

    /// Whether the top layer holds a definition for `k`.
    pub open spec fn at_top(self, k: Seq<char>) -> bool {
        self.has_key(k) && self.layers.last().contains(self.slot_of(k))
    }

    /// The binding of `k` as seen after skipping, among the topmost
    /// `skip` layers, those that hold a distinct definition for `k`.
    pub open spec fn get_parent(self, k: Seq<char>, skip: int) -> Option<V> {
        if self.has_key(k) {
            let st = self.stacks[self.slot_of(k)];
            let c = top_hits(self.layers, self.slot_of(k), skip);
            if c < st.len() {
                Some(st[st.len() - 1 - c])
            } else {
                None
            }
        } else {
            None
        }
    }

    /// How many layers below the top the innermost definition of `k` lies;
    /// `None` if `k` is not visible at all.
    pub open spec fn depth_of(self, k: Seq<char>) -> Option<int> {
        if self.has_key(k) {
            scan_depth(self.layers, self.slot_of(k))
        } else {
            None
        }
    }

    /// Effect of overwriting the innermost binding of `k` through a mutable
    /// borrow; meaningful only when `visible(k)`.
    pub open spec fn set_top(self, k: Seq<char>, v: V) -> Self {
        let s = self.slot_of(k);
        MapModel {
            keys: self.keys,
            stacks: self.stacks.update(s, self.stacks[s].update(self.stacks[s].len() - 1, v)),
            layers: self.layers,
        }
    }

    /// Effect of overwriting, through a mutable borrow, the binding that
    /// `get_parent(k, skip)` resolves to; meaningful only when that lookup
    /// succeeds.
    pub open spec fn set_shadow(self, k: Seq<char>, skip: int, v: V) -> Self {
        let s = self.slot_of(k);
        let st = self.stacks[s];
        let c = top_hits(self.layers, s, skip);
        MapModel {
            keys: self.keys,
            stacks: self.stacks.update(s, st.update(st.len() - 1 - c, v)),
            layers: self.layers,
        }
    }

    /// Effect of pushing a fresh layer.
    pub open spec fn push(self) -> Self {
        MapModel { keys: self.keys, stacks: self.stacks, layers: self.layers.push(Set::empty()) }
    }

    /// Whether a layer can be popped: the base layer is permanent.
    pub open spec fn can_pop(self) -> bool {
        self.layers.len() > 1
    }

    /// Effect of popping the top layer: every slot it defined loses its
    /// innermost binding.
    pub open spec fn pop(self) -> Self {
        if !self.can_pop() {
            self
        } else {
            MapModel {
                keys: self.keys,
                stacks: Seq::new(
                    self.stacks.len(),
                    |s: int|
                        if self.layers.last().contains(s) {
                            self.stacks[s].drop_last()
                        } else {
                            self.stacks[s]
                        },
                ),
                layers: self.layers.drop_last(),
            }
        }
    }

    /// Effect of defining `k = v` in the top layer: a first definition in
    /// this layer pushes a new shadow, a redefinition overwrites in place.
    pub open spec fn define(self, k: Seq<char>, v: V) -> Self {
        if !self.has_key(k) {
            MapModel {
                keys: self.keys.push(k),
                stacks: self.stacks.push(seq![v]),
                layers: self.layers.update(
                    self.layers.len() - 1,
                    self.layers.last().insert(self.keys.len() as int),
                ),
            }
        } else {
            let s = self.slot_of(k);
            if self.layers.last().contains(s) {
                MapModel {
                    keys: self.keys,
                    stacks: self.stacks.update(
                        s,
                        self.stacks[s].update(self.stacks[s].len() - 1, v),
                    ),
                    layers: self.layers,
                }
            } else {
                MapModel {
                    keys: self.keys,
                    stacks: self.stacks.update(s, self.stacks[s].push(v)),
                    layers: self.layers.update(
                        self.layers.len() - 1,
                        self.layers.last().insert(s),
                    ),
                }
            }
        }
    }

    /// Whether `delete(k)` retracts anything: only the top layer's own
    /// definitions can be deleted.
    pub open spec fn can_delete(self, k: Seq<char>) -> bool {
        self.at_top(k)
    }

    /// Effect of deleting `k` from the top layer.
    pub open spec fn delete(self, k: Seq<char>) -> Self {
        if !self.at_top(k) {
            self
        } else {
            let s = self.slot_of(k);
            MapModel {
                keys: self.keys,
                stacks: self.stacks.update(s, self.stacks[s].drop_last()),
                layers: self.layers.update(self.layers.len() - 1, self.layers.last().remove(s)),
            }
        }
    }

    /// Effect of retracting every definition the top layer introduced,
    /// without removing the layer itself.
    pub open spec fn clear_top(self) -> Self {
        MapModel {
            keys: self.keys,
            stacks: Seq::new(
                self.stacks.len(),
                |s: int|
                    if self.layers.last().contains(s) {
                        self.stacks[s].drop_last()
                    } else {
                        self.stacks[s]
                    },
            ),
            layers: self.layers.update(self.layers.len() - 1, Set::empty()),
        }
    }
}

/// Declares indexmap's `IndexSet` so that it can stand in fields and
/// signatures; Verus sees nothing of its inside.
#[verifier::external_type_specification]
#[verifier::external_body]
#[verifier::reject_recursive_types(T)]
#[verifier::reject_recursive_types(S)]
pub struct ExIndexSet<T, S>(IndexSet<T, S>);

/// The keys held by an insertion-ordered index set, in their order.
pub uninterp spec fn im_keys(m: IndexSet<String, RandomState>) -> Seq<Seq<char>>;

/// Relies on indexmap's IndexSet::new: creates an empty set.
#[verifier::external_body]
fn im_new() -> (r: IndexSet<String>)
    ensures
        im_keys(r) == Seq::<Seq<char>>::empty(),
{
    IndexSet::new()
}

/// Relies on indexmap's IndexSet::with_capacity: creates an empty set.
#[verifier::external_body]
fn im_with_capacity(n: usize) -> (r: IndexSet<String>)
    ensures
        im_keys(r) == Seq::<Seq<char>>::empty(),
{
    IndexSet::with_capacity(n)
}

/// Relies on indexmap's IndexSet::with_hasher: creates an empty set.
#[verifier::external_body]
fn im_with_hasher(hash_builder: RandomState) -> (r: IndexSet<String>)
    ensures
        im_keys(r) == Seq::<Seq<char>>::empty(),
{
    IndexSet::with_hasher(hash_builder)
}

/// Relies on indexmap's IndexSet::with_capacity_and_hasher: creates an
/// empty set.
#[verifier::external_body]
fn im_with_capacity_and_hasher(n: usize, hash_builder: RandomState) -> (r: IndexSet<String>)
    ensures
        im_keys(r) == Seq::<Seq<char>>::empty(),
{
    IndexSet::with_capacity_and_hasher(n, hash_builder)
}

/// Relies on indexmap's IndexSet::len: the number of elements.
#[verifier::external_body]
fn im_len(m: &IndexSet<String>) -> (r: usize)
    ensures
        r == im_keys(*m).len(),
{
    m.len()
}

/// Relies on indexmap's IndexSet::capacity: a lower bound on how many
/// elements the set can hold, never below what it holds already.
#[verifier::external_body]
fn im_capacity(m: &IndexSet<String>) -> (r: usize)
    ensures
        r >= im_keys(*m).len(),
{
    m.capacity()
}

/// Relies on indexmap's IndexSet::get_index_of: the index of an element
/// equal to the query, if the set holds one.
#[verifier::external_body]
fn im_get_index_of(m: &IndexSet<String>, k: &String) -> (r: Option<usize>)
    ensures
        match r {
            Some(i) => 0 <= i < im_keys(*m).len() && im_keys(*m)[i as int] == k@,
            None => forall|i: int| 0 <= i < im_keys(*m).len() ==> im_keys(*m)[i] != k@,
        },
{
    m.get_index_of(k)
}

/// Relies on indexmap's IndexSet::insert_full: an element already present
/// keeps its index and leaves the set unchanged; a new element is appended
/// at the end of the order, at index `len`.
#[verifier::external_body]
fn im_insert(m: &mut IndexSet<String>, k: String) -> (r: usize)
    ensures
        (exists|i: int| 0 <= i < im_keys(*old(m)).len() && im_keys(*old(m))[i] == k@) ==> {
            &&& im_keys(*final(m)) == im_keys(*old(m))
            &&& 0 <= r < im_keys(*old(m)).len()
            &&& im_keys(*old(m))[r as int] == k@
        },
        (forall|i: int| 0 <= i < im_keys(*old(m)).len() ==> im_keys(*old(m))[i] != k@) ==> {
            &&& im_keys(*final(m)) == im_keys(*old(m)).push(k@)
            &&& r == im_keys(*old(m)).len()
        },
{
    m.insert_full(k).0
}

/// Relies on indexmap's IndexSet::clear: removes every element.
#[verifier::external_body]
fn im_clear(m: &mut IndexSet<String>)
    ensures
        im_keys(*final(m)) == Seq::<Seq<char>>::empty(),
{
    m.clear()
}

/// The set of slot indices held by one layer's vector.
pub open spec fn layer_set(l: Seq<usize>) -> Set<int> {
    Set::new(|s: int| exists|t: int| 0 <= t < l.len() && l[t] as int == s)
}

proof fn lemma_layer_set_push(l: Seq<usize>, x: usize)
    ensures
        layer_set(l.push(x)) =~= layer_set(l).insert(x as int),
{
    assert forall|s: int| #[trigger] layer_set(l.push(x)).contains(s) implies layer_set(
        l,
    ).insert(x as int).contains(s) by {
        let t = choose|t: int| 0 <= t < l.push(x).len() && l.push(x)[t] as int == s;
        if t < l.len() {
            assert(l[t] as int == s);
        }
    }
    assert forall|s: int| #[trigger] layer_set(l).insert(x as int).contains(s) implies layer_set(
        l.push(x),
    ).contains(s) by {
        if s == x as int {
            assert(l.push(x)[l.len() as int] as int == s);
        } else {
            let t = choose|t: int| 0 <= t < l.len() && l[t] as int == s;
            assert(l.push(x)[t] as int == s);
        }
    }
}

proof fn lemma_hits_nonneg(layers: Seq<Set<int>>, s: int)
    ensures
        layer_hits(layers, s) >= 0,
    decreases layers.len(),
{
    if layers.len() > 0 {
        lemma_hits_nonneg(layers.drop_last(), s);
    }
}

proof fn lemma_hits_zero(layers: Seq<Set<int>>, s: int)
    requires
        forall|l: int| 0 <= l < layers.len() ==> !(#[trigger] layers[l].contains(s)),
    ensures
        layer_hits(layers, s) == 0,
    decreases layers.len(),
{
    if layers.len() > 0 {
        assert(forall|l: int|
            0 <= l < layers.drop_last().len() ==> layers.drop_last()[l] == layers[l]);
        lemma_hits_zero(layers.drop_last(), s);
        assert(!layers[layers.len() - 1].contains(s));
    }
}

proof fn lemma_hits_lower(layers: Seq<Set<int>>, s: int, l: int)
    requires
        0 <= l < layers.len(),
        layers[l].contains(s),
    ensures
        layer_hits(layers, s) >= 1,
    decreases layers.len(),
{
    lemma_hits_nonneg(layers.drop_last(), s);
    if l < layers.len() - 1 {
        assert(layers.drop_last()[l] == layers[l]);
        lemma_hits_lower(layers.drop_last(), s, l);
    }
}

proof fn lemma_hits_update_top(layers: Seq<Set<int>>, ls: Set<int>, s: int)
    requires
        layers.len() >= 1,
    ensures
        layer_hits(layers.update(layers.len() - 1, ls), s) == layer_hits(layers, s) - (
        if layers.last().contains(s) {
            1int
        } else {
            0int
        }) + (
        if ls.contains(s) {
            1int
        } else {
            0int
        }),
{
    let l2 = layers.update(layers.len() - 1, ls);
    assert(l2.drop_last() =~= layers.drop_last());
    assert(l2.last() == ls);
}

proof fn lemma_top_hits_step(layers: Seq<Set<int>>, s: int, t: int)
    requires
        0 <= t < layers.len(),
    ensures
        top_hits(layers, s, t + 1) == top_hits(layers, s, t) + (
        if layers[layers.len() - 1 - t].contains(s) {
            1int
        } else {
            0int
        }),
    decreases layers.len(),
{
    let dl = layers.drop_last();
    assert(top_hits(layers, s, t + 1) == (
    if layers.last().contains(s) {
        1int
    } else {
        0int
    }) + top_hits(dl, s, t));
    if t == 0 {
        assert(top_hits(dl, s, 0) == 0);
        assert(top_hits(layers, s, 0) == 0);
    } else {
        lemma_top_hits_step(dl, s, t - 1);
        assert(dl[dl.len() - 1 - (t - 1)] == layers[layers.len() - 1 - t]);
        assert(top_hits(layers, s, t) == (
        if layers.last().contains(s) {
            1int
        } else {
            0int
        }) + top_hits(dl, s, t - 1));
    }
}

proof fn lemma_top_hits_clamp(layers: Seq<Set<int>>, s: int, skip: int)
    requires
        skip >= layers.len(),
    ensures
        top_hits(layers, s, skip) == top_hits(layers, s, layers.len() as int),
    decreases layers.len(),
{
    if layers.len() > 0 {
        lemma_top_hits_clamp(layers.drop_last(), s, skip - 1);
    }
}

proof fn lemma_take_shrink(layers: Seq<Set<int>>, m: int)
    requires
        0 < m <= layers.len(),
    ensures
        layers.take(m).drop_last() =~= layers.take(m - 1),
        layers.take(m).last() == layers[m - 1],
        layers.take(m).len() == m,
{
}

proof fn lemma_slot_unique<V>(m: MapModel<V>, k: Seq<char>, i: int)
    requires
        m.inv(),
        0 <= i < m.keys.len(),
        m.keys[i] == k,
    ensures
        m.has_key(k),
        m.slot_of(k) == i,
{
    assert(m.has_key(k));
    let j = m.slot_of(k);
    assert(0 <= j < m.keys.len() && m.keys[j] == k);
}

proof fn lemma_set_top_wf<V>(m: MapModel<V>, k: Seq<char>)
    requires
        m.inv(),
        m.visible(k),
    ensures
        forall|v: V| (#[trigger] m.set_top(k, v)).inv(),
{
    assert forall|v: V| (#[trigger] m.set_top(k, v)).inv() by {
        let m1 = m.set_top(k, v);
        assert forall|s: int| 0 <= s < m1.stacks.len() implies #[trigger] m1.stacks[s].len()
            == layer_hits(m1.layers, s) by {
            assert(m1.stacks[s].len() == m.stacks[s].len());
        }
    }
}

proof fn lemma_set_shadow_wf<V>(m: MapModel<V>, k: Seq<char>, skip: int)
    requires
        m.inv(),
        m.has_key(k),
        0 <= top_hits(m.layers, m.slot_of(k), skip) < m.stacks[m.slot_of(k)].len(),
    ensures
        forall|v: V| (#[trigger] m.set_shadow(k, skip, v)).inv(),
{
    assert forall|v: V| (#[trigger] m.set_shadow(k, skip, v)).inv() by {
        let m1 = m.set_shadow(k, skip, v);
        assert forall|s: int| 0 <= s < m1.stacks.len() implies #[trigger] m1.stacks[s].len()
            == layer_hits(m1.layers, s) by {
            assert(m1.stacks[s].len() == m.stacks[s].len());
        }
    }
}

proof fn lemma_define_new_wf<V>(m0: MapModel<V>, k: Seq<char>, v: V, n: int)
    requires
        m0.inv(),
        !m0.has_key(k),
        n == m0.keys.len(),
    ensures
        m0.define(k, v).inv(),
{
    let m1 = m0.define(k, v);
    let topi = m0.layers.len() - 1;
    let newtop = m0.layers.last().insert(n);
    assert(m1.layers == m0.layers.update(topi, newtop));
    assert forall|l: int, s: int|
        0 <= l < m1.layers.len() && #[trigger] m1.layers[l].contains(s) implies 0 <= s
        < m1.keys.len() by {
        if l == topi && s == n {
        } else {
            assert(m0.layers[l].contains(s));
        }
    }
    assert forall|s: int| 0 <= s < m1.stacks.len() implies #[trigger] m1.stacks[s].len()
        == layer_hits(m1.layers, s) by {
        lemma_hits_update_top(m0.layers, newtop, s);
        if s == n {
            assert(forall|l: int|
                0 <= l < m0.layers.len() ==> !(#[trigger] m0.layers[l].contains(s)));
            lemma_hits_zero(m0.layers, s);
            assert(!m0.layers.last().contains(s));
            assert(m1.stacks[s] == seq![v]);
        } else {
            assert(m1.stacks[s] == m0.stacks[s]);
            assert(newtop.contains(s) == m0.layers.last().contains(s));
        }
    }
}

proof fn lemma_define_shadow_wf<V>(m0: MapModel<V>, k: Seq<char>, v: V, s0: int)
    requires
        m0.inv(),
        m0.has_key(k),
        m0.slot_of(k) == s0,
        !m0.layers.last().contains(s0),
    ensures
        m0.define(k, v).inv(),
{
    let m1 = m0.define(k, v);
    let topi = m0.layers.len() - 1;
    let newtop = m0.layers.last().insert(s0);
    assert(0 <= s0 < m0.keys.len());
    assert(m1.layers == m0.layers.update(topi, newtop));
    assert forall|l: int, s: int|
        0 <= l < m1.layers.len() && #[trigger] m1.layers[l].contains(s) implies 0 <= s
        < m1.keys.len() by {
        if !(l == topi && s == s0) {
            assert(m0.layers[l].contains(s));
        }
    }
    assert forall|s: int| 0 <= s < m1.stacks.len() implies #[trigger] m1.stacks[s].len()
        == layer_hits(m1.layers, s) by {
        lemma_hits_update_top(m0.layers, newtop, s);
        if s == s0 {
            assert(m1.stacks[s] == m0.stacks[s].push(v));
        } else {
            assert(m1.stacks[s] == m0.stacks[s]);
            assert(newtop.contains(s) == m0.layers.last().contains(s));
        }
    }
}

proof fn lemma_layer_set_remove(l: Seq<usize>, t: int)
    requires
        0 <= t < l.len(),
        l.no_duplicates(),
    ensures
        layer_set(l.remove(t)) =~= layer_set(l).remove(l[t] as int),
        l.remove(t).no_duplicates(),
{
    l.remove_ensures(t);
    let x = l[t] as int;
    assert forall|s: int| #[trigger] layer_set(l.remove(t)).contains(s) implies layer_set(l).remove(
        x,
    ).contains(s) by {
        let u = choose|u: int| 0 <= u < l.remove(t).len() && l.remove(t)[u] as int == s;
        if u < t {
            assert(l[u] as int == s);
            assert(l[u] != l[t]);
        } else {
            assert(l[u + 1] as int == s);
            assert(l[u + 1] != l[t]);
        }
    }
    assert forall|s: int| #[trigger] layer_set(l).remove(x).contains(s) implies layer_set(
        l.remove(t),
    ).contains(s) by {
        let u = choose|u: int| 0 <= u < l.len() && l[u] as int == s;
        assert(u != t);
        if u < t {
            assert(l.remove(t)[u] as int == s);
        } else {
            assert(l.remove(t)[u - 1] as int == s);
        }
    }
    assert forall|i: int, j: int|
        0 <= i < l.remove(t).len() && 0 <= j < l.remove(t).len() && i != j implies l.remove(t)[i]
        != l.remove(t)[j] by {
        let i0 = if i < t {
            i
        } else {
            i + 1
        };
        let j0 = if j < t {
            j
        } else {
            j + 1
        };
        assert(l.remove(t)[i] == l[i0] && l.remove(t)[j] == l[j0]);
    }
}

proof fn lemma_pop_wf<V>(m0: MapModel<V>)
    requires
        m0.inv(),
        m0.can_pop(),
    ensures
        m0.pop().inv(),
{
    let m1 = m0.pop();
    assert forall|l: int, s: int|
        0 <= l < m1.layers.len() && #[trigger] m1.layers[l].contains(s) implies 0 <= s
        < m1.keys.len() by {
        assert(m0.layers[l].contains(s));
    }
    assert forall|s: int| 0 <= s < m1.stacks.len() implies #[trigger] m1.stacks[s].len()
        == layer_hits(m1.layers, s) by {
        assert(layer_hits(m0.layers, s) == layer_hits(m0.layers.drop_last(), s) + (
        if m0.layers.last().contains(s) {
            1int
        } else {
            0int
        }));
        if m0.layers.last().contains(s) {
            lemma_hits_lower(m0.layers, s, m0.layers.len() - 1);
        }
    }
}

proof fn lemma_clear_top_wf<V>(m0: MapModel<V>)
    requires
        m0.inv(),
    ensures
        m0.clear_top().inv(),
{
    let m1 = m0.clear_top();
    assert forall|l: int, s: int|
        0 <= l < m1.layers.len() && #[trigger] m1.layers[l].contains(s) implies 0 <= s
        < m1.keys.len() by {
        assert(m0.layers[l].contains(s));
    }
    assert forall|s: int| 0 <= s < m1.stacks.len() implies #[trigger] m1.stacks[s].len()
        == layer_hits(m1.layers, s) by {
        lemma_hits_update_top(m0.layers, Set::empty(), s);
        if m0.layers.last().contains(s) {
            lemma_hits_lower(m0.layers, s, m0.layers.len() - 1);
        }
    }
}

proof fn lemma_delete_wf<V>(m0: MapModel<V>, k: Seq<char>)
    requires
        m0.inv(),
        m0.at_top(k),
    ensures
        m0.delete(k).inv(),
{
    let m1 = m0.delete(k);
    let s0 = m0.slot_of(k);
    let newtop = m0.layers.last().remove(s0);
    assert(0 <= s0 < m0.keys.len());
    assert forall|l: int, s: int|
        0 <= l < m1.layers.len() && #[trigger] m1.layers[l].contains(s) implies 0 <= s
        < m1.keys.len() by {
        if !(l == m0.layers.len() - 1) {
            assert(m0.layers[l].contains(s));
        }
    }
    assert forall|s: int| 0 <= s < m1.stacks.len() implies #[trigger] m1.stacks[s].len()
        == layer_hits(m1.layers, s) by {
        lemma_hits_update_top(m0.layers, newtop, s);
        if s == s0 {
            lemma_hits_lower(m0.layers, s, m0.layers.len() - 1);
            assert(m1.stacks[s] == m0.stacks[s].drop_last());
        } else {
            assert(m1.stacks[s] == m0.stacks[s]);
            assert(newtop.contains(s) == m0.layers.last().contains(s));
        }
    }
}

/// Pops one value off the shadow stack of every slot listed in `popped`.
fn pop_many<V>(stacks: &mut Vec<Vec<V>>, popped: &Vec<usize>)
    requires
        popped@.no_duplicates(),
        forall|t: int| 0 <= t < popped@.len() ==> (popped@[t] as int) < old(stacks)@.len(),
        forall|t: int|
            0 <= t < popped@.len() ==> old(stacks)@[popped@[t] as int]@.len() >= 1,
    ensures
        final(stacks)@.len() == old(stacks)@.len(),
        forall|s: int|
            0 <= s < old(stacks)@.len() ==> final(stacks)@[s]@ == (
            if layer_set(popped@).contains(s) {
                old(stacks)@[s]@.drop_last()
            } else {
                old(stacks)@[s]@
            }),
{
    let mut t: usize = 0;
    while t < popped.len()
        invariant
            t <= popped@.len(),
            popped@.no_duplicates(),
            forall|u: int| 0 <= u < popped@.len() ==> (popped@[u] as int) < old(stacks)@.len(),
            forall|u: int|
                0 <= u < popped@.len() ==> old(stacks)@[popped@[u] as int]@.len() >= 1,
            stacks@.len() == old(stacks)@.len(),
            forall|s: int|
                0 <= s < stacks@.len() ==> stacks@[s]@ == (
                if exists|u: int| 0 <= u < t && popped@[u] as int == s {
                    old(stacks)@[s]@.drop_last()
                } else {
                    old(stacks)@[s]@
                }),
        decreases popped@.len() - t,
    {
        let s = popped[t];
        proof {
            assert(!(exists|u: int| 0 <= u < t && popped@[u] as int == s as int)) by {
                if exists|u: int| 0 <= u < t && popped@[u] as int == s as int {
                    let u = choose|u: int| 0 <= u < t && popped@[u] as int == s as int;
                    assert(popped@[u] != popped@[t as int]);
                }
            }
            assert(stacks@[s as int]@ == old(stacks)@[s as int]@);
        }
        let stref = &mut stacks[s];
        stref.pop();
        t += 1;
        proof {
            assert forall|s2: int| 0 <= s2 < stacks@.len() implies stacks@[s2]@ == (
            if exists|u: int| 0 <= u < t && popped@[u] as int == s2 {
                old(stacks)@[s2]@.drop_last()
            } else {
                old(stacks)@[s2]@
            }) by {
                if s2 == s as int {
                    assert(popped@[t - 1] as int == s2);
                } else {
                    if exists|u: int| 0 <= u < t && popped@[u] as int == s2 {
                        let u = choose|u: int| 0 <= u < t && popped@[u] as int == s2;
                        assert(u != t - 1);
                        assert(exists|u2: int| 0 <= u2 < t - 1 && popped@[u2] as int == s2);
                    } else {
                        assert(!(exists|u: int| 0 <= u < t - 1 && popped@[u] as int == s2));
                    }
                }
            }
        }
    }
    proof {
        assert forall|s: int| 0 <= s < old(stacks)@.len() implies stacks@[s]@ == (
        if layer_set(popped@).contains(s) {
            old(stacks)@[s]@.drop_last()
        } else {
            old(stacks)@[s]@
        }) by {
            assert(layer_set(popped@).contains(s) == (exists|u: int|
                0 <= u < popped@.len() && popped@[u] as int == s));
        }
    }
}

/// Whether `x` occurs in one layer's vector of slot indices.
fn layer_contains(l: &Vec<usize>, x: usize) -> (r: bool)
    ensures
        r == layer_set(l@).contains(x as int),
{
    let mut t: usize = 0;
    while t < l.len()
        invariant
            t <= l@.len(),
            forall|u: int| 0 <= u < t ==> l@[u] != x,
        decreases l@.len() - t,
    {
        if l[t] == x {
            proof {
                assert(l@[t as int] as int == x as int);
            }
            return true;
        }
        t += 1;
    }
    proof {
        assert(!layer_set(l@).contains(x as int)) by {
            if layer_set(l@).contains(x as int) {
                let u = choose|u: int| 0 <= u < l@.len() && l@[u] as int == x as int;
                assert(l@[u] != x);
            }
        }
    }
    false
}

/// Removes `x` from one layer's vector of slot indices, if present.
fn layer_remove(l: &mut Vec<usize>, x: usize) -> (r: bool)
    requires
        old(l)@.no_duplicates(),
    ensures
        r == layer_set(old(l)@).contains(x as int),
        final(l)@.no_duplicates(),
        layer_set(final(l)@) =~= layer_set(old(l)@).remove(x as int),
{
    let mut t: usize = 0;
    while t < l.len()
        invariant
            t <= l@.len(),
            l@ == old(l)@,
            old(l)@.no_duplicates(),
            forall|u: int| 0 <= u < t ==> l@[u] != x,
        decreases l@.len() - t,
    {
        if l[t] == x {
            l.remove(t);
            proof {
                lemma_layer_set_remove(old(l)@, t as int);
                assert(layer_set(old(l)@).contains(x as int)) by {
                    assert(old(l)@[t as int] as int == x as int);
                }
            }
            return true;
        }
        t += 1;
    }
    proof {
        assert(!layer_set(l@).contains(x as int)) by {
            if layer_set(l@).contains(x as int) {
                let u = choose|u: int| 0 <= u < l@.len() && l@[u] as int == x as int;
                assert(l@[u] != x);
            }
        }
        assert(layer_set(l@) =~= layer_set(l@).remove(x as int));
    }
    false
}

/// A layered map from `String` keys to values of type `V`.
///
/// Lookups resolve to the innermost visible binding; layers are pushed and
/// popped as scopes are entered and left. The key order is kept by an
/// insertion-ordered index set, which assigns each key a stable slot; the
/// shadow stacks and the per-layer bookkeeping live in parallel vectors.
pub struct ScopeMap<V> {
    index: IndexSet<String>,
    stacks: Vec<Vec<V>>,
    layers: Vec<Vec<usize>>,
}

impl<V> View for ScopeMap<V> {
    type V = MapModel<V>;

    closed spec fn view(&self) -> MapModel<V> {
        MapModel {
            keys: im_keys(self.index),
            stacks: Seq::new(self.stacks@.len(), |s: int| self.stacks@[s]@),
            layers: Seq::new(self.layers@.len(), |l: int| layer_set(self.layers@[l]@)),
        }
    }
}

impl<V> ScopeMap<V> {
    /// The map is well formed: its model satisfies [`MapModel::inv`] and no
    /// layer records the same slot twice.
    pub closed spec fn wf(self) -> bool {
        &&& self@.inv()
        &&& forall|l: int| 0 <= l < self.layers@.len() ==> self.layers@[l]@.no_duplicates()
    }

    /// Creates an empty map with a single base layer.
    pub fn new() -> (r: ScopeMap<V>)
        ensures
            r.wf(),
            r@ == MapModel::<V>::empty(),
    {
        Self::from_empty_index(im_new())
    }

    /// Creates an empty map sized for at least `capacity` keys.
    pub fn with_capacity(capacity: usize) -> (r: ScopeMap<V>)
        ensures
            r.wf(),
            r@ == MapModel::<V>::empty(),
    {
        Self::from_empty_index(im_with_capacity(capacity))
    }

    /// Creates an empty map that hashes keys with the given state.
    pub fn with_hasher(hash_builder: RandomState) -> (r: ScopeMap<V>)
        ensures
            r.wf(),
            r@ == MapModel::<V>::empty(),
    {
        Self::from_empty_index(im_with_hasher(hash_builder))
    }

    /// Creates an empty map with the given capacity and hash state.
    pub fn with_capacity_and_hasher(capacity: usize, hash_builder: RandomState) -> (r: ScopeMap<V>)
        ensures
            r.wf(),
            r@ == MapModel::<V>::empty(),
    {
        Self::from_empty_index(im_with_capacity_and_hasher(capacity, hash_builder))
    }

    fn from_empty_index(index: IndexSet<String>) -> (r: ScopeMap<V>)
        requires
            im_keys(index) == Seq::<Seq<char>>::empty(),
        ensures
            r.wf(),
            r@ == MapModel::<V>::empty(),
    {
        let mut layers: Vec<Vec<usize>> = Vec::new();
        layers.push(Vec::new());
        let r = ScopeMap { index, stacks: Vec::new(), layers };
        proof {
            assert(layer_set(Seq::<usize>::empty()) =~= Set::<int>::empty());
            assert(r@.layers =~= seq![Set::<int>::empty()]);
            assert(r@.stacks =~= Seq::<Seq<V>>::empty());
            assert(r@ =~~= MapModel::<V>::empty());
            assert(r@.inv());
        }
        r
    }

    /// How many elements the underlying index can hold without reallocating;
    /// at least [`Self::len`].
    pub fn capacity(&self) -> (r: usize)
        ensures
            r >= self@.keys.len(),
    {
        im_capacity(&self.index)
    }

    /// Whether no key was ever defined.
    pub fn is_empty(&self) -> (r: bool)
        ensures
            r == (self@.keys.len() == 0),
    {
        im_len(&self.index) == 0
    }

    /// The number of distinct keys ever defined, slots with an emptied
    /// shadow stack included.
    pub fn len(&self) -> (r: usize)
        ensures
            r == self@.keys.len(),
    {
        im_len(&self.index)
    }

    /// The number of active layers; always at least 1.
    pub fn layer_count(&self) -> (r: usize)
        requires
            self.wf(),
        ensures
            r == self@.layers.len(),
            r >= 1,
    {
        self.layers.len()
    }

    /// Defines `key = value` in the topmost layer. A key not yet defined in
    /// this layer gains a new shadowing entry; redefining a key within the
    /// same layer overwrites that entry in place.
    pub fn define(&mut self, key: String, value: V)
        requires
            old(self).wf(),
        ensures
            final(self).wf(),
            final(self)@ == old(self)@.define(key@, value),
    {
        let ghost k = key@;
        let ghost m0 = old(self)@;
        let n = self.stacks.len();
        let slot = im_insert(&mut self.index, key);
        proof {
            assert(self.layers@.len() == m0.layers.len());
        }
        let top = self.layers.len() - 1;
        if slot == n {
            proof {
                assert(!m0.has_key(k));
                assert(forall|i: int| 0 <= i < m0.keys.len() ==> m0.keys[i] != k);
            }
            let mut st: Vec<V> = Vec::new();
            st.push(value);
            self.stacks.push(st);
            let lref = &mut self.layers[top];
            lref.push(slot);
            proof {
                let m1 = m0.define(k, value);
                assert(self@.keys =~= m0.keys.push(k));
                assert(self@.stacks =~~= m0.stacks.push(seq![value]));
                lemma_layer_set_push(old(self).layers@[old(self).layers@.len() - 1]@, slot);
                assert(self@.layers =~~= m0.layers.update(
                    m0.layers.len() - 1,
                    m0.layers.last().insert(n as int),
                ));
                assert(self@ =~~= m1);
                lemma_define_new_wf(m0, k, value, n as int);
                assert forall|l: int| 0 <= l < self.layers@.len() implies self.layers@[l]@.no_duplicates() by {
                    if l == top {
                        assert forall|t: int| 0 <= t < old(self).layers@[l]@.len() implies (
                        old(self).layers@[l]@[t] as int) < n by {
                            assert(m0.layers[l].contains(old(self).layers@[l]@[t] as int));
                        }
                        assert(self.layers@[l]@ =~= old(self).layers@[l]@.push(slot));
                    }
                }
            }
        } else {
            proof {
                assert(m0.has_key(k)) by {
                    assert(im_keys(old(self).index)[slot as int] == k);
                }
                assert(m0.slot_of(k) == slot) by {
                    let i = m0.slot_of(k);
                    assert(0 <= i < m0.keys.len() && m0.keys[i] == k);
                }
                assert(self@ == m0);
            }
            let contained = layer_contains(&self.layers[top], slot);
            if contained {
                proof {
                    lemma_hits_lower(m0.layers, slot as int, m0.layers.len() - 1);
                    assert(m0.stacks[slot as int].len() >= 1);
                }
                let stref = &mut self.stacks[slot];
                let sl = stref.len();
                let vref = &mut stref[sl - 1];
                *vref = value;
                proof {
                    let m1 = m0.define(k, value);
                    assert(self@.stacks =~~= m0.stacks.update(
                        slot as int,
                        m0.stacks[slot as int].update(m0.stacks[slot as int].len() - 1, value),
                    ));
                    assert(self@.layers =~~= m0.layers);
                    assert(self@ =~~= m1);
                    assert forall|s: int| 0 <= s < self@.stacks.len() implies #[trigger] self@.stacks[s].len()
                        == layer_hits(self@.layers, s) by {
                        assert(self@.stacks[s].len() == m0.stacks[s].len());
                        assert(layer_hits(self@.layers, s) == layer_hits(m0.layers, s));
                    }
                    assert(self@.inv());
                }
            } else {
                let stref = &mut self.stacks[slot];
                stref.push(value);
                let lref = &mut self.layers[top];
                lref.push(slot);
                proof {
                    let m1 = m0.define(k, value);
                    assert(self@.stacks =~~= m0.stacks.update(
                        slot as int,
                        m0.stacks[slot as int].push(value),
                    ));
                    lemma_layer_set_push(old(self).layers@[old(self).layers@.len() - 1]@, slot);
                    assert(self@.layers =~~= m0.layers.update(
                        m0.layers.len() - 1,
                        m0.layers.last().insert(slot as int),
                    ));
                    assert(self@ =~~= m1);
                    lemma_define_shadow_wf(m0, k, value, slot as int);
                    assert forall|l: int| 0 <= l < self.layers@.len() implies self.layers@[l]@.no_duplicates() by {
                        if l == top {
                            assert(!layer_set(old(self).layers@[l]@).contains(slot as int));
                            assert(self.layers@[l]@ =~= old(self).layers@[l]@.push(slot));
                        }
                    }
                }
            }
        }
    }

    /// Adds a new, empty layer.
    pub fn push_layer(&mut self)
        requires
            old(self).wf(),
        ensures
            final(self).wf(),
            final(self)@ == old(self)@.push(),
    {
        self.layers.push(Vec::new());
        proof {
            assert(layer_set(Seq::<usize>::empty()) =~= Set::<int>::empty());
            assert(self@.layers =~~= old(self)@.layers.push(Set::<int>::empty()));
            assert(self@.stacks =~= old(self)@.stacks);
            assert(self@ =~~= old(self)@.push());
            assert(self@.layers.drop_last() =~= old(self)@.layers);
            assert forall|s: int| 0 <= s < self@.stacks.len() implies #[trigger] self@.stacks[s].len()
                == layer_hits(self@.layers, s) by {
                assert(layer_hits(self@.layers, s) == layer_hits(old(self)@.layers, s));
            }
            assert(self@.inv());
        }
    }

    /// Removes the topmost layer unless only the base layer remains; every
    /// binding the removed layer introduced is retracted. Returns whether a
    /// layer was removed.
    pub fn pop_layer(&mut self) -> (r: bool)
        requires
            old(self).wf(),
        ensures
            final(self).wf(),
            r == old(self)@.can_pop(),
            final(self)@ == old(self)@.pop(),
    {
        let ghost m0 = old(self)@;
        if self.layers.len() > 1 {
            let popped = self.layers.pop().unwrap();
            proof {
                assert(popped@ == old(self).layers@[old(self).layers@.len() - 1]@);
                assert forall|t: int| 0 <= t < popped@.len() implies (popped@[t] as int)
                    < self.stacks@.len() && self.stacks@[popped@[t] as int]@.len() >= 1 by {
                    assert(layer_set(popped@).contains(popped@[t] as int));
                    assert(m0.layers[m0.layers.len() - 1] == layer_set(popped@));
                    assert(m0.layers[m0.layers.len() - 1].contains(popped@[t] as int));
                    assert(0 <= (popped@[t] as int) && (popped@[t] as int) < m0.keys.len());
                    lemma_hits_lower(m0.layers, popped@[t] as int, m0.layers.len() - 1);
                    assert(m0.stacks[popped@[t] as int].len() >= 1);
                    assert(self.stacks@[popped@[t] as int]@ == m0.stacks[popped@[t] as int]);
                }
            }
            pop_many(&mut self.stacks, &popped);
            proof {
                assert(self@.layers =~~= m0.layers.drop_last());
                assert(self@.stacks =~~= m0.pop().stacks);
                assert(self@ =~~= m0.pop());
                lemma_pop_wf(m0);
            }
            true
        } else {
            proof {
                assert(self@ == m0);
                assert(m0.pop() == m0);
            }
            false
        }
    }

    /// Retracts every binding the topmost layer introduced, without
    /// removing the layer itself.
    pub fn clear_top(&mut self)
        requires
            old(self).wf(),
        ensures
            final(self).wf(),
            final(self)@ == old(self)@.clear_top(),
    {
        let ghost m0 = old(self)@;
        let popped = self.layers.pop().unwrap();
        proof {
            assert(popped@ == old(self).layers@[old(self).layers@.len() - 1]@);
            assert forall|t: int| 0 <= t < popped@.len() implies (popped@[t] as int)
                < self.stacks@.len() && self.stacks@[popped@[t] as int]@.len() >= 1 by {
                assert(layer_set(popped@).contains(popped@[t] as int));
                assert(m0.layers[m0.layers.len() - 1] == layer_set(popped@));
                assert(m0.layers[m0.layers.len() - 1].contains(popped@[t] as int));
                assert(0 <= (popped@[t] as int) && (popped@[t] as int) < m0.keys.len());
                lemma_hits_lower(m0.layers, popped@[t] as int, m0.layers.len() - 1);
                assert(m0.stacks[popped@[t] as int].len() >= 1);
                assert(self.stacks@[popped@[t] as int]@ == m0.stacks[popped@[t] as int]);
            }
        }
        pop_many(&mut self.stacks, &popped);
        self.layers.push(Vec::new());
        proof {
            assert(layer_set(Seq::<usize>::empty()) =~= Set::<int>::empty());
            assert(self@.layers =~~= m0.layers.update(m0.layers.len() - 1, Set::<int>::empty()));
            assert(self@.stacks =~~= m0.clear_top().stacks);
            assert(self@ =~~= m0.clear_top());
            lemma_clear_top_wf(m0);
        }
    }

    /// Discards every key and every additional layer, resetting the map to
    /// a single empty base layer.
    pub fn clear_all(&mut self)
        requires
            old(self).wf(),
        ensures
            final(self).wf(),
            final(self)@ == MapModel::<V>::empty(),
    {
        im_clear(&mut self.index);
        self.stacks = Vec::new();
        self.layers = Vec::new();
        self.layers.push(Vec::new());
        proof {
            assert(layer_set(Seq::<usize>::empty()) =~= Set::<int>::empty());
            assert(self@.layers =~= seq![Set::<int>::empty()]);
            assert(self@.stacks =~= Seq::<Seq<V>>::empty());
            assert(self@ =~~= MapModel::<V>::empty());
            assert(self@.inv());
        }
    }

    /// Removes the binding for `key` if the topmost layer itself introduced
    /// one; a binding inherited from an outer layer is left untouched.
    /// Returns whether a binding was removed.
    pub fn delete(&mut self, key: String) -> (r: bool)
        requires
            old(self).wf(),
        ensures
            final(self).wf(),
            r == old(self)@.can_delete(key@),
            final(self)@ == old(self)@.delete(key@),
    {
        let ghost k = key@;
        let ghost m0 = old(self)@;
        let slot_opt = im_get_index_of(&self.index, &key);
        match slot_opt {
            None => {
                proof {
                    assert(!m0.has_key(k));
                    assert(m0.delete(k) == m0);
                }
                false
            },
            Some(slot) => {
                proof {
                    assert(m0.has_key(k)) by {
                        assert(im_keys(old(self).index)[slot as int] == k);
                    }
                    assert(m0.slot_of(k) == slot) by {
                        let i = m0.slot_of(k);
                        assert(0 <= i < m0.keys.len() && m0.keys[i] == k);
                    }
                }
                let top = self.layers.len() - 1;
                let lref = &mut self.layers[top];
                let removed = layer_remove(lref, slot);
                if removed {
                    proof {
                        assert(m0.at_top(k));
                        lemma_hits_lower(m0.layers, slot as int, m0.layers.len() - 1);
                        assert(m0.stacks[slot as int].len() >= 1);
                    }
                    let stref = &mut self.stacks[slot];
                    stref.pop();
                    proof {
                        assert(self@.stacks =~~= m0.stacks.update(
                            slot as int,
                            m0.stacks[slot as int].drop_last(),
                        ));
                        assert(self@.layers =~~= m0.layers.update(
                            m0.layers.len() - 1,
                            m0.layers.last().remove(slot as int),
                        ));
                        assert(self@ =~~= m0.delete(k));
                        lemma_delete_wf(m0, k);
                    }
                    true
                } else {
                    proof {
                        assert(!m0.at_top(k));
                        assert(m0.delete(k) == m0);
                        assert(self@.layers =~~= m0.layers);
                        assert(self@.stacks =~~= m0.stacks);
                        assert(self@ =~~= m0);
                    }
                    false
                }
            },
        }
    }

    /// Whether `key` is currently bound in any layer.
    pub fn contains_key(&self, key: &String) -> (r: bool)
        requires
            self.wf(),
        ensures
            r == self@.visible(key@),
    {
        let slot_opt = im_get_index_of(&self.index, key);
        match slot_opt {
            None => {
                proof {
                    assert(!self@.has_key(key@));
                }
                false
            },
            Some(slot) => {
                proof {
                    lemma_slot_unique(self@, key@, slot as int);
                }
                let st = &self.stacks[slot];
                st.len() > 0
            },
        }
    }

    /// Whether the topmost layer itself holds a definition for `key`, as
    /// opposed to one merely inherited from an outer layer.
    pub fn contains_key_at_top(&self, key: &String) -> (r: bool)
        requires
            self.wf(),
        ensures
            r == self@.at_top(key@),
    {
        let slot_opt = im_get_index_of(&self.index, key);
        match slot_opt {
            None => {
                proof {
                    assert(!self@.has_key(key@));
                }
                false
            },
            Some(slot) => {
                proof {
                    lemma_slot_unique(self@, key@, slot as int);
                }
                let top = self.layers.len() - 1;
                let r = layer_contains(&self.layers[top], slot);
                proof {
                    assert(self@.layers[top as int] == layer_set(self.layers@[top as int]@));
                }
                r
            },
        }
    }

    /// The innermost visible binding of `key`, if any.
    pub fn get(&self, key: &String) -> (r: Option<&V>)
        requires
            self.wf(),
        ensures
            r.is_some() == self@.visible(key@),
            r.is_some() ==> Some(*r.unwrap()) == self@.get(key@),
    {
        let slot_opt = im_get_index_of(&self.index, key);
        match slot_opt {
            None => {
                proof {
                    assert(!self@.has_key(key@));
                }
                None
            },
            Some(slot) => {
                proof {
                    lemma_slot_unique(self@, key@, slot as int);
                }
                let st = &self.stacks[slot];
                if st.len() > 0 {
                    Some(&st[st.len() - 1])
                } else {
                    None
                }
            },
        }
    }

    /// The innermost binding of `key`, which must be visible: the hard
    /// counterpart of [`Self::get`] for callers that have already
    /// established presence.
    pub fn index(&self, key: &String) -> (r: &V)
        requires
            self.wf(),
            self@.visible(key@),
        ensures
            Some(*r) == self@.get(key@),
    {
        self.get(key).unwrap()
    }

    /// A mutable borrow of the innermost visible binding of `key`, if any.
    pub fn get_mut(&mut self, key: &String) -> (r: Option<&mut V>)
        requires
            old(self).wf(),
        ensures
            r.is_some() == old(self)@.visible(key@),
            r.is_none() ==> final(self)@ == old(self)@,
            r.is_some() ==> Some(*r.unwrap()) == old(self)@.get(key@) && final(self)@ =~~= old(
                self,
            )@.set_top(key@, *final(r.unwrap())),
            r.is_some() ==> final(self)@ == old(self)@.set_top(key@, *final(r.unwrap())),
            final(self).wf(),
    {
        let ghost m0 = old(self)@;
        let slot_opt = im_get_index_of(&self.index, key);
        match slot_opt {
            None => {
                proof {
                    assert(!m0.has_key(key@));
                }
                None
            },
            Some(slot) => {
                proof {
                    lemma_slot_unique(m0, key@, slot as int);
                }
                let sl = self.stacks[slot].len();
                if sl > 0 {
                    proof {
                        lemma_set_top_wf(m0, key@);
                    }
                    let stref = &mut self.stacks[slot];
                    let vref = &mut stref[sl - 1];
                    Some(vref)
                } else {
                    None
                }
            },
        }
    }

    fn count_top_hits(&self, slot: usize, skip_count: usize) -> (c: usize)
        requires
            self.wf(),
        ensures
            c as int == top_hits(self@.layers, slot as int, skip_count as int),
            c <= self@.layers.len(),
    {
        let ln = self.layers.len();
        let lim = if skip_count < ln {
            skip_count
        } else {
            ln
        };
        let mut c: usize = 0;
        let mut t: usize = 0;
        while t < lim
            invariant
                self.wf(),
                t <= lim,
                lim <= ln,
                ln == self@.layers.len(),
                lim as int == (
                if (skip_count as int) < (ln as int) {
                    skip_count as int
                } else {
                    ln as int
                }),
                c as int == top_hits(self@.layers, slot as int, t as int),
                c <= t,
            decreases lim - t,
        {
            let hit = layer_contains(&self.layers[ln - 1 - t], slot);
            proof {
                lemma_top_hits_step(self@.layers, slot as int, t as int);
                assert(self@.layers[ln - 1 - t] == layer_set(self.layers@[ln - 1 - t]@));
            }
            if hit {
                c += 1;
            }
            t += 1;
        }
        proof {
            if skip_count >= ln {
                lemma_top_hits_clamp(self@.layers, slot as int, skip_count as int);
            }
        }
        c
    }

    /// The binding of `key` as seen after skipping, among the topmost
    /// `skip_count` layers, those that hold a distinct definition for
    /// `key`. A skip count of 0 resolves like [`Self::get`].
    pub fn get_parent(&self, key: &String, skip_count: usize) -> (r: Option<&V>)
        requires
            self.wf(),
        ensures
            r.is_some() == self@.get_parent(key@, skip_count as int).is_some(),
            r.is_some() ==> Some(*r.unwrap()) == self@.get_parent(key@, skip_count as int),
    {
        let slot_opt = im_get_index_of(&self.index, key);
        match slot_opt {
            None => {
                proof {
                    assert(!self@.has_key(key@));
                }
                None
            },
            Some(slot) => {
                proof {
                    lemma_slot_unique(self@, key@, slot as int);
                }
                let c = self.count_top_hits(slot, skip_count);
                let st = &self.stacks[slot];
                if c < st.len() {
                    Some(&st[st.len() - 1 - c])
                } else {
                    None
                }
            },
        }
    }

    /// The mutable counterpart of [`Self::get_parent`].
    #[verifier::rlimit(50)]
    pub fn get_parent_mut(&mut self, key: &String, skip_count: usize) -> (r: Option<&mut V>)
        requires
            old(self).wf(),
        ensures
            r.is_some() == old(self)@.get_parent(key@, skip_count as int).is_some(),
            r.is_none() ==> final(self)@ == old(self)@,
            r.is_some() ==> Some(*r.unwrap()) == old(self)@.get_parent(key@, skip_count as int)
                && final(self)@ =~~= old(self)@.set_shadow(
                key@,
                skip_count as int,
                *final(r.unwrap()),
            ),
            r.is_some() ==> final(self)@ == old(self)@.set_shadow(
                key@,
                skip_count as int,
                *final(r.unwrap()),
            ),
            final(self).wf(),
    {
        let ghost m0 = old(self)@;
        let slot_opt = im_get_index_of(&self.index, key);
        match slot_opt {
            None => {
                proof {
                    assert(!m0.has_key(key@));
                }
                None
            },
            Some(slot) => {
                proof {
                    lemma_slot_unique(m0, key@, slot as int);
                }
                let c = self.count_top_hits(slot, skip_count);
                let sl = self.stacks[slot].len();
                if c < sl {
                    proof {
                        lemma_set_shadow_wf(m0, key@, skip_count as int);
                    }
                    let stref = &mut self.stacks[slot];
                    let vref = &mut stref[sl - 1 - c];
                    Some(vref)
                } else {
                    None
                }
            },
        }
    }

    /// How many layers below the top the innermost definition of `key`
    /// lies; 0 means the topmost layer defines it. `None` if `key` is not
    /// visible at all.
    pub(crate) fn depth_of(&self, key: &String) -> (r: Option<usize>)
        requires
            self.wf(),
        ensures
            r.is_some() == self@.depth_of(key@).is_some(),
            r.is_some() ==> Some(r.unwrap() as int) == self@.depth_of(key@),
    {
        let slot_opt = im_get_index_of(&self.index, key);
        match slot_opt {
            None => {
                proof {
                    assert(!self@.has_key(key@));
                }
                None
            },
            Some(slot) => {
                proof {
                    lemma_slot_unique(self@, key@, slot as int);
                    assert(self@.layers.take(self@.layers.len() as int) =~= self@.layers);
                }
                let ln = self.layers.len();
                let mut t: usize = 0;
                while t < ln
                    invariant
                        self.wf(),
                        t <= ln,
                        ln == self@.layers.len(),
                        self@.has_key(key@),
                        self@.slot_of(key@) == slot as int,
                        scan_depth(self@.layers, slot as int) == (
                        match scan_depth(self@.layers.take(ln - t), slot as int) {
                            Some(d) => Some(d + t),
                            None => None::<int>,
                        }),
                    decreases ln - t,
                {
                    let hit = layer_contains(&self.layers[ln - 1 - t], slot);
                    proof {
                        lemma_take_shrink(self@.layers, ln - t);
                        assert(self@.layers[ln - 1 - t] == layer_set(self.layers@[ln - 1 - t]@));
                    }
                    if hit {
                        proof {
                            assert(scan_depth(self@.layers.take(ln - t), slot as int) == Some(
                                0int,
                            ));
                        }
                        return Some(t);
                    }
                    t += 1;
                }
                proof {
                    assert(self@.layers.take(0) =~= Seq::<Set<int>>::empty());
                }
                None
            },
        }
    }
}

impl<V> Default for ScopeMap<V> {
    /// Equivalent to [`ScopeMap::new`].
    fn default() -> (r: Self)
        ensures
            r.wf(),
            r@ == MapModel::<V>::empty(),
    {
        ScopeMap::new()
    }
}

/// The freshly created state is well formed, holds exactly one layer and no
/// keys: the state that `clear_all` restores.
pub proof fn lemma_empty_reset<V>()
    ensures
        MapModel::<V>::empty().inv(),
        MapModel::<V>::empty().layers.len() == 1,
        MapModel::<V>::empty().keys.len() == 0,
{
    let e = MapModel::<V>::empty();
    assert(e.inv());
}

/// The base layer is permanent: a well-formed map holds at least one layer,
/// and popping with only the base layer present changes nothing.
pub proof fn lemma_layer_floor<V>(m: MapModel<V>)
    requires
        m.inv(),
    ensures
        m.layers.len() >= 1,
        m.layers.len() == 1 ==> !m.can_pop() && m.pop() == m,
{
}

/// `define` preserves well-formedness from any well-formed state.
pub proof fn lemma_define_inv<V>(m: MapModel<V>, k: Seq<char>, v: V)
    requires
        m.inv(),
    ensures
        m.define(k, v).inv(),
{
    if !m.has_key(k) {
        lemma_define_new_wf(m, k, v, m.keys.len() as int);
    } else {
        let s = m.slot_of(k);
        assert(0 <= s < m.keys.len() && m.keys[s] == k);
        if m.layers.last().contains(s) {
            lemma_hits_lower(m.layers, s, m.layers.len() - 1);
            lemma_set_top_wf(m, k);
            assert(m.define(k, v) == m.set_top(k, v));
        } else {
            lemma_define_shadow_wf(m, k, v, s);
        }
    }
}

/// `push` preserves well-formedness.
pub proof fn lemma_push_wf<V>(m: MapModel<V>)
    requires
        m.inv(),
    ensures
        m.push().inv(),
{
    let mp = m.push();
    assert(mp.layers.drop_last() =~= m.layers);
    assert forall|l: int, s: int|
        0 <= l < mp.layers.len() && #[trigger] mp.layers[l].contains(s) implies 0 <= s
        < mp.keys.len() by {
        if l < m.layers.len() {
            assert(m.layers[l].contains(s));
        }
    }
    assert forall|s: int| 0 <= s < mp.stacks.len() implies #[trigger] mp.stacks[s].len()
        == layer_hits(mp.layers, s) by {
        assert(layer_hits(mp.layers, s) == layer_hits(m.layers, s));
    }
}

/// Define-then-get: right after `define(k, v)`, `k` resolves to `v`.
pub proof fn lemma_define_get<V>(m: MapModel<V>, k: Seq<char>, v: V)
    requires
        m.inv(),
    ensures
        m.define(k, v).get(k) == Some(v),
{
    lemma_define_inv(m, k, v);
    let m1 = m.define(k, v);
    if !m.has_key(k) {
        let n = m.keys.len() as int;
        assert(m1.keys[n] == k);
        lemma_slot_unique(m1, k, n);
        assert(m1.stacks[n] == seq![v]);
    } else {
        let s = m.slot_of(k);
        assert(0 <= s < m.keys.len() && m.keys[s] == k);
        lemma_slot_unique(m1, k, s);
        if m.layers.last().contains(s) {
            lemma_hits_lower(m.layers, s, m.layers.len() - 1);
            assert(m.stacks[s].len() >= 1);
            assert(m1.stacks[s] == m.stacks[s].update(m.stacks[s].len() - 1, v));
        } else {
            assert(m1.stacks[s] == m.stacks[s].push(v));
        }
    }
}

/// Shadowing: defining `k` anew in a pushed layer hides the outer binding,
/// and popping that layer reveals it again.
pub proof fn lemma_shadow_roundtrip<V>(m: MapModel<V>, k: Seq<char>, v1: V, v2: V)
    requires
        m.inv(),
    ensures
        m.define(k, v1).push().define(k, v2).get(k) == Some(v2),
        m.define(k, v1).push().define(k, v2).pop().get(k) == Some(v1),
{
    lemma_define_get(m, k, v1);
    lemma_define_inv(m, k, v1);
    let ma = m.define(k, v1);
    lemma_push_wf(ma);
    let mb = ma.push();
    let s = ma.slot_of(k);
    assert(ma.has_key(k) && 0 <= s < ma.keys.len() && ma.keys[s] == k);
    lemma_slot_unique(mb, k, s);
    assert(mb.layers.last() == Set::<int>::empty());
    lemma_define_shadow_wf(mb, k, v2, s);
    lemma_define_get(mb, k, v2);
    let mc = mb.define(k, v2);
    assert(mc.stacks[s] == mb.stacks[s].push(v2));
    assert(mc.can_pop());
    lemma_pop_wf(mc);
    let md = mc.pop();
    assert(mc.layers.last().contains(s));
    assert(md.stacks[s] == mc.stacks[s].drop_last());
    assert(mc.stacks[s].drop_last() =~= ma.stacks[s]);
    assert(md.keys == ma.keys);
    lemma_slot_unique(md, k, s);
    assert(ma.stacks[s].len() > 0);
    assert(md.get(k) == Some(ma.stacks[s].last()));
}

/// Redefining a key in the same layer overwrites in place: a second
/// definition leaves exactly the state a single definition would, so one
/// `pop_layer` or `delete` retracts it entirely.
pub proof fn lemma_redefine_overwrites<V>(m: MapModel<V>, k: Seq<char>, v1: V, v2: V)
    requires
        m.inv(),
    ensures
        m.define(k, v1).define(k, v2) == m.define(k, v2),
{
    lemma_define_inv(m, k, v1);
    let m1 = m.define(k, v1);
    let m2 = m1.define(k, v2);
    let md = m.define(k, v2);
    if !m.has_key(k) {
        let n = m.keys.len() as int;
        assert(m1.keys[n] == k);
        lemma_slot_unique(m1, k, n);
        assert(m1.layers.last().contains(n));
        assert(m1.stacks[n] == seq![v1]);
        assert(m2.stacks =~~= m.stacks.push(seq![v2])) by {
            assert(m1.stacks[n].update(0, v2) =~= seq![v2]);
        }
        assert(m2 =~~= md);
    } else {
        let s = m.slot_of(k);
        assert(0 <= s < m.keys.len() && m.keys[s] == k);
        lemma_slot_unique(m1, k, s);
        let st = m.stacks[s];
        if m.layers.last().contains(s) {
            lemma_hits_lower(m.layers, s, m.layers.len() - 1);
            assert(st.len() >= 1);
            assert(m1.stacks[s] == st.update(st.len() - 1, v1));
            assert(m1.layers.last().contains(s));
            assert(m2.stacks =~~= m.stacks.update(s, st.update(st.len() - 1, v2))) by {
                assert(st.update(st.len() - 1, v1).update(st.len() - 1, v2) =~= st.update(
                    st.len() - 1,
                    v2,
                ));
            }
            assert(m2 =~~= md);
        } else {
            assert(m1.stacks[s] == st.push(v1));
            assert(m1.layers == m.layers.update(
                m.layers.len() - 1,
                m.layers.last().insert(s),
            ));
            assert(m1.layers.last().contains(s));
            assert(m2.stacks =~~= m.stacks.update(s, st.push(v2))) by {
                assert(st.push(v1).update(st.len() as int, v2) =~= st.push(v2));
            }
            assert(m2 =~~= md);
        }
    }
}

/// Deletion is layer-scoped: a key the topmost layer did not itself define
/// cannot be deleted, and the attempt changes nothing.
pub proof fn lemma_delete_needs_top<V>(m: MapModel<V>, k: Seq<char>)
    requires
        m.inv(),
        !m.at_top(k),
    ensures
        !m.can_delete(k),
        m.delete(k) == m,
{
}

/// A freshly pushed layer defines nothing, so right after a push no key can
/// be deleted and every lookup still sees the outer bindings.
pub proof fn lemma_push_shields_delete<V>(m: MapModel<V>, k: Seq<char>)
    requires
        m.inv(),
    ensures
        !m.push().at_top(k),
        m.push().delete(k) == m.push(),
        m.push().get(k) == m.get(k),
{
    let mp = m.push();
    lemma_push_wf(m);
    assert(mp.layers.last() == Set::<int>::empty());
    if m.has_key(k) {
        let s = m.slot_of(k);
        assert(0 <= s < m.keys.len() && m.keys[s] == k);
        lemma_slot_unique(mp, k, s);
    } else {
        assert(!mp.has_key(k));
    }
}

proof fn lemma_scan_nonneg(layers: Seq<Set<int>>, s: int)
    ensures
        match scan_depth(layers, s) {
            Some(d) => d >= 0,
            None => true,
        },
    decreases layers.len(),
{
    if layers.len() > 0 && !layers.last().contains(s) {
        lemma_scan_nonneg(layers.drop_last(), s);
    }
}

/// `at_top` holds exactly of the keys whose most specific definition is in
/// the current layer: those whose depth is zero.
pub proof fn lemma_at_top_is_depth_zero<V>(m: MapModel<V>, k: Seq<char>)
    requires
        m.inv(),
    ensures
        m.at_top(k) <==> m.depth_of(k) == Some(0int),
{
    if m.has_key(k) {
        let s = m.slot_of(k);
        if m.layers.last().contains(s) {
            assert(scan_depth(m.layers, s) == Some(0int));
        } else {
            lemma_scan_nonneg(m.layers.drop_last(), s);
            assert(scan_depth(m.layers, s) != Some(0int));
        }
    }
}

/// Pushing a layer moves every visible key exactly one layer deeper and
/// leaves invisible keys invisible.
pub proof fn lemma_push_depth<V>(m: MapModel<V>, k: Seq<char>)
    requires
        m.inv(),
    ensures
        m.push().depth_of(k) == (match m.depth_of(k) {
            Some(d) => Some(d + 1),
            None => None::<int>,
        }),
{
    let mp = m.push();
    lemma_push_wf(m);
    if m.has_key(k) {
        let s = m.slot_of(k);
        assert(0 <= s < m.keys.len() && m.keys[s] == k);
        lemma_slot_unique(mp, k, s);
        assert(mp.layers.drop_last() =~= m.layers);
        assert(!mp.layers.last().contains(s));
    } else {
        assert(!mp.has_key(k));
    }
}

/// The `n`-fold iteration of `push`.
pub open spec fn push_n<V>(m: MapModel<V>, n: nat) -> MapModel<V>
    decreases n,
{
    if n == 0 {
        m
    } else {
        push_n(m, (n - 1) as nat).push()
    }
}

/// Pushing `n` layers without redefining a visible key increases its depth
/// by exactly `n`.
pub proof fn lemma_push_n_depth<V>(m: MapModel<V>, k: Seq<char>, n: nat)
    requires
        m.inv(),
        m.depth_of(k).is_some(),
    ensures
        push_n(m, n).inv(),
        push_n(m, n).depth_of(k) == Some(m.depth_of(k).unwrap() + n),
    decreases n,
{
    if n != 0 {
        lemma_push_n_depth(m, k, (n - 1) as nat);
        lemma_push_depth(push_n(m, (n - 1) as nat), k);
        lemma_push_wf(push_n(m, (n - 1) as nat));
    }
}

/// Defining a key puts its most specific definition in the current layer:
/// its depth afterwards is zero.
pub proof fn lemma_define_resets_depth<V>(m: MapModel<V>, k: Seq<char>, v: V)
    requires
        m.inv(),
    ensures
        m.define(k, v).depth_of(k) == Some(0int),
{
    lemma_define_inv(m, k, v);
    let m1 = m.define(k, v);
    if !m.has_key(k) {
        let n = m.keys.len() as int;
        assert(m1.keys[n] == k);
        lemma_slot_unique(m1, k, n);
        assert(m1.layers.last().contains(n));
        assert(scan_depth(m1.layers, n) == Some(0int));
    } else {
        let s = m.slot_of(k);
        assert(0 <= s < m.keys.len() && m.keys[s] == k);
        lemma_slot_unique(m1, k, s);
        assert(m1.layers.last().contains(s));
        assert(scan_depth(m1.layers, s) == Some(0int));
    }
}

/// Ancestor lookup with a skip count of zero resolves like `get`.
pub proof fn lemma_get_parent_zero<V>(m: MapModel<V>, k: Seq<char>)
    requires
        m.inv(),
    ensures
        m.get_parent(k, 0) == m.get(k),
{
    if m.has_key(k) {
        let s = m.slot_of(k);
        assert(top_hits(m.layers, s, 0) == 0);
        let st = m.stacks[s];
        if st.len() > 0 {
            assert(st[st.len() - 1 - 0] == st.last());
        }
    }
}

} // verus!
