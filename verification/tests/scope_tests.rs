use scope_map::map::ScopeMap;
use scope_map::set::ScopeSet;

fn s(text: &str) -> String {
    String::from(text)
}

#[test]
fn set_init() {
    let set: ScopeSet = ScopeSet::new();
    assert_eq!(0, set.len());
    assert_eq!(1, set.depth());
    assert!(set.is_empty());
}

#[test]
fn set_default() {
    let set: ScopeSet = Default::default();
    assert_eq!(0, set.len());
    assert_eq!(1, set.depth());
    assert!(set.is_empty());
}

#[test]
fn set_capacity() {
    let set: ScopeSet = ScopeSet::with_capacity(32);
    assert_eq!(32, set.capacity());
}

#[test]
fn set_define() {
    let mut set = ScopeSet::new();
    set.define(s("foo"));
    assert_eq!(1, set.len());
}

#[test]
fn set_delete() {
    let mut set = ScopeSet::new();
    set.define(s("foo"));
    set.delete(s("foo"));
    assert!(!set.contains(&s("foo")));
}

#[test]
fn set_pop_to_delete() {
    let mut set = ScopeSet::new();
    set.push_layer();
    set.define(s("foo"));
    assert!(set.contains(&s("foo")));
    set.pop_layer();
    assert!(!set.contains(&s("foo")));
}

#[test]
fn set_layer_count() {
    let mut set: ScopeSet = Default::default();
    set.push_layer();
    assert_eq!(2, set.depth());
    set.pop_layer();
    assert_eq!(1, set.depth());
}

#[test]
fn set_try_pop_first_layer() {
    let mut set: ScopeSet = Default::default();
    assert_eq!(false, set.pop_layer());
    assert_eq!(1, set.depth());
}

#[test]
fn set_contains() {
    let mut set = ScopeSet::new();
    set.define(s("foo"));
    assert!(set.contains(&s("foo")));
}

#[test]
fn set_contains_none() {
    let mut set = ScopeSet::new();
    set.define(s("foo"));
    assert!(!set.contains(&s("bar")));
}

#[test]
fn set_contains_multi_layer() {
    let mut set = ScopeSet::new();
    set.define(s("foo"));
    set.push_layer();
    set.define(s("bar"));
    assert!(set.contains(&s("foo")));
    assert!(set.contains(&s("bar")));
}

#[test]
fn set_depth_of() {
    let mut set = ScopeSet::new();
    set.define(s("foo"));
    set.push_layer();
    set.define(s("bar"));
    assert_eq!(Some(1), set.depth_of(&s("foo")));
    assert_eq!(Some(0), set.depth_of(&s("bar")));
    assert_eq!(None, set.depth_of(&s("baz")));
}

#[test]
fn set_with_hasher() {
    let mut set = ScopeSet::with_hasher(std::collections::hash_map::RandomState::new());
    set.define(s("foo"));
    assert!(set.contains(&s("foo")));
    assert_eq!(1, set.depth());
}

#[test]
fn map_with_capacity_and_hasher() {
    let mut map: ScopeMap<i32> =
        ScopeMap::with_capacity_and_hasher(8, std::collections::hash_map::RandomState::new());
    assert!(map.capacity() >= 8);
    map.define(s("k"), 3);
    assert_eq!(map.get(&s("k")), Some(&3));
}

#[test]
fn map_init() {
    let map: ScopeMap<i32> = ScopeMap::new();
    assert_eq!(0, map.len());
    assert!(map.is_empty());
    assert_eq!(1, map.layer_count());
}

#[test]
fn map_default() {
    let map: ScopeMap<i32> = Default::default();
    assert_eq!(0, map.len());
    assert_eq!(1, map.layer_count());
}

#[test]
fn map_capacity() {
    let map: ScopeMap<i32> = ScopeMap::with_capacity(16);
    assert!(map.capacity() >= 16);
}

#[test]
fn map_define_then_get() {
    let mut map: ScopeMap<i32> = ScopeMap::new();
    map.define(s("k"), 7);
    assert_eq!(map.get(&s("k")), Some(&7));
    assert!(map.contains_key(&s("k")));
    assert_eq!(map.get(&s("absent")), None);
}

#[test]
fn map_shadowing_roundtrip() {
    let mut map: ScopeMap<i32> = ScopeMap::new();
    map.define(s("k"), 1);
    map.push_layer();
    map.define(s("k"), 2);
    assert_eq!(map.get(&s("k")), Some(&2));
    assert!(map.pop_layer());
    assert_eq!(map.get(&s("k")), Some(&1));
}

#[test]
fn map_redefine_single_pop() {
    let mut map: ScopeMap<i32> = ScopeMap::new();
    map.push_layer();
    map.define(s("k"), 1);
    map.define(s("k"), 2);
    assert_eq!(map.get(&s("k")), Some(&2));
    assert!(map.pop_layer());
    assert_eq!(map.get(&s("k")), None);
    assert!(!map.contains_key(&s("k")));
}

#[test]
fn map_redefine_single_delete() {
    let mut map: ScopeMap<i32> = ScopeMap::new();
    map.define(s("k"), 1);
    map.define(s("k"), 2);
    assert!(map.delete(s("k")));
    assert_eq!(map.get(&s("k")), None);
}

#[test]
fn map_delete_is_layer_scoped() {
    let mut map: ScopeMap<i32> = ScopeMap::new();
    map.define(s("k"), 1);
    map.push_layer();
    assert!(!map.delete(s("k")));
    assert_eq!(map.get(&s("k")), Some(&1));
}

#[test]
fn map_delete_in_own_layer() {
    let mut map: ScopeMap<i32> = ScopeMap::new();
    map.define(s("k"), 1);
    assert!(map.delete(s("k")));
    assert!(!map.delete(s("k")));
    map.define(s("k"), 2);
    assert_eq!(map.get(&s("k")), Some(&2));
}

#[test]
fn map_contains_key_at_top() {
    let mut map: ScopeMap<i32> = ScopeMap::new();
    map.define(s("k"), 1);
    assert!(map.contains_key_at_top(&s("k")));
    map.push_layer();
    assert!(!map.contains_key_at_top(&s("k")));
    assert!(map.contains_key(&s("k")));
    map.define(s("k"), 2);
    assert!(map.contains_key_at_top(&s("k")));
}

#[test]
fn set_depth_monotonic() {
    let mut set = ScopeSet::new();
    set.define(s("foo"));
    assert_eq!(Some(0), set.depth_of(&s("foo")));
    set.push_layer();
    set.push_layer();
    assert_eq!(Some(2), set.depth_of(&s("foo")));
    set.define(s("foo"));
    assert_eq!(Some(0), set.depth_of(&s("foo")));
}

#[test]
fn map_get_parent_counts_relevant_layers() {
    let mut map: ScopeMap<i32> = ScopeMap::new();
    map.define(s("k"), 1);
    map.push_layer();
    map.define(s("k"), 2);
    map.push_layer();
    map.push_layer();
    map.define(s("k"), 3);
    assert_eq!(map.get_parent(&s("k"), 0), Some(&3));
    assert_eq!(map.get_parent(&s("k"), 1), Some(&2));
    assert_eq!(map.get_parent(&s("k"), 2), Some(&2));
    assert_eq!(map.get_parent(&s("k"), 3), Some(&1));
    assert_eq!(map.get_parent(&s("k"), 4), None);
    assert_eq!(map.get_parent(&s("k"), 10), None);
    assert_eq!(map.get_parent(&s("missing"), 0), None);
}

#[test]
fn map_get_parent_zero_matches_get() {
    let mut map: ScopeMap<i32> = ScopeMap::new();
    map.define(s("a"), 5);
    map.push_layer();
    assert_eq!(map.get_parent(&s("a"), 0), map.get(&s("a")));
    assert_eq!(map.get_parent(&s("nope"), 0), map.get(&s("nope")));
}

#[test]
fn map_clear_all_resets() {
    let mut map: ScopeMap<i32> = ScopeMap::new();
    map.define(s("a"), 1);
    map.push_layer();
    map.define(s("b"), 2);
    map.clear_all();
    assert_eq!(1, map.layer_count());
    assert_eq!(0, map.len());
    assert!(map.is_empty());
    assert_eq!(map.get(&s("a")), None);
}

#[test]
fn map_clear_top_keeps_layer() {
    let mut map: ScopeMap<i32> = ScopeMap::new();
    map.define(s("a"), 1);
    map.push_layer();
    map.define(s("b"), 2);
    map.define(s("c"), 3);
    map.clear_top();
    assert_eq!(2, map.layer_count());
    assert_eq!(map.get(&s("b")), None);
    assert_eq!(map.get(&s("c")), None);
    assert_eq!(map.get(&s("a")), Some(&1));
}

#[test]
fn map_scenario_foo_bar() {
    let mut map: ScopeMap<i32> = ScopeMap::new();
    map.define(s("foo"), 1);
    map.push_layer();
    map.define(s("bar"), 2);
    assert!(map.contains_key(&s("foo")));
    assert!(map.contains_key(&s("bar")));
    assert!(map.pop_layer());
    assert!(!map.contains_key(&s("bar")));
    assert!(map.contains_key(&s("foo")));
}

#[test]
fn map_get_mut_overwrites_top() {
    let mut map: ScopeMap<i32> = ScopeMap::new();
    map.define(s("k"), 1);
    map.push_layer();
    map.define(s("k"), 2);
    if let Some(v) = map.get_mut(&s("k")) {
        *v = 20;
    } else {
        panic!("expected a binding");
    }
    assert_eq!(map.get(&s("k")), Some(&20));
    assert!(map.pop_layer());
    assert_eq!(map.get(&s("k")), Some(&1));
    assert_eq!(map.get_mut(&s("absent")), None);
}

#[test]
fn map_get_parent_mut_overwrites_outer() {
    let mut map: ScopeMap<i32> = ScopeMap::new();
    map.define(s("k"), 1);
    map.push_layer();
    map.define(s("k"), 2);
    if let Some(v) = map.get_parent_mut(&s("k"), 1) {
        *v = 10;
    } else {
        panic!("expected an outer binding");
    }
    assert_eq!(map.get(&s("k")), Some(&2));
    assert!(map.pop_layer());
    assert_eq!(map.get(&s("k")), Some(&10));
}

#[test]
fn map_index_accessor() {
    let mut map: ScopeMap<i32> = ScopeMap::new();
    map.define(s("k"), 42);
    assert_eq!(*map.index(&s("k")), 42);
}

#[test]
fn map_len_counts_slots_not_visibility() {
    let mut map: ScopeMap<i32> = ScopeMap::new();
    map.push_layer();
    map.define(s("k"), 1);
    assert!(map.pop_layer());
    assert_eq!(1, map.len());
    assert!(!map.contains_key(&s("k")));
}

#[test]
fn map_pop_layer_base_refused() {
    let mut map: ScopeMap<i32> = ScopeMap::new();
    assert!(!map.pop_layer());
    assert_eq!(1, map.layer_count());
    map.push_layer();
    assert!(map.pop_layer());
    assert!(!map.pop_layer());
}

#[test]
fn set_clear_top() {
    let mut set = ScopeSet::new();
    set.define(s("a"));
    set.push_layer();
    set.define(s("b"));
    set.clear_top();
    assert_eq!(2, set.depth());
    assert!(!set.contains(&s("b")));
    assert!(set.contains(&s("a")));
}

#[test]
fn set_contains_at_top_shadowed() {
    let mut set = ScopeSet::new();
    set.define(s("foo"));
    set.push_layer();
    assert!(!set.contains_at_top(&s("foo")));
    set.define(s("foo"));
    assert!(set.contains_at_top(&s("foo")));
    set.pop_layer();
    assert!(set.contains_at_top(&s("foo")));
}

#[test]
fn set_clear_all() {
    let mut set = ScopeSet::new();
    set.define(s("a"));
    set.push_layer();
    set.define(s("b"));
    set.clear_all();
    assert_eq!(1, set.depth());
    assert_eq!(0, set.len());
    assert!(set.is_empty());
}
