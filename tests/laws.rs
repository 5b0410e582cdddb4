use std::collections::hash_map::RandomState;
use std::collections::HashSet;

use tiered_map::TieredMap;

#[test]
fn round_trip_scenario() {
    let mut r = TieredMap::new();
    r.insert("a", 1);
    let mut s1 = r.new_scope();
    s1.insert("b", 2);
    assert_eq!(s1.get("a"), Some(&1));
    assert_eq!(s1.get("b"), Some(&2));
    assert_eq!(r.get("b"), None);
    assert_eq!(r.len(), 1);
    assert_eq!(s1.len(), 2);
}

#[test]
fn shadow_scenario() {
    let mut r = TieredMap::new();
    r.insert("a", 1);
    let mut s = r.new_scope();
    assert_eq!(s.insert("a", 3), None);
    assert_eq!(s.get("a"), Some(&3));
    assert_eq!(r.get("a"), Some(&1));
    assert_eq!(s.insert("a", 4), Some(3));
    assert_eq!(s.get("a"), Some(&4));
    assert_eq!(r.get("a"), Some(&1));
}

#[test]
fn elision_scenario() {
    let mut r = TieredMap::new();
    r.insert("a", 1);
    let s1 = r.new_scope();
    let s2 = s1.new_scope();
    assert_eq!(s2.get("a"), Some(&1));
    assert_eq!(s2.len(), 1);
    assert_eq!(s1.len(), 1);
    assert!(s2.contains_key("a"));
    assert!(!s2.contains_key("b"));
}

#[test]
fn elided_scope_counts_from_nearest_nonempty_tier() {
    let mut r = TieredMap::new();
    r.insert("a", 1);
    r.insert("b", 2);
    let mut s1 = r.new_scope();
    s1.insert("c", 3);
    let s2 = s1.new_scope();
    let s3 = s2.new_scope();
    let s4 = s3.new_scope();
    assert_eq!(s4.len(), 3);
    assert_eq!(s4.get("c"), Some(&3));
    assert_eq!(s4.get("a"), Some(&1));
    let mut n = 0;
    let mut it = s4.iter();
    while it.next().is_some() {
        n += 1;
    }
    assert_eq!(n, 3);
}

#[test]
fn fall_through_to_root_and_absent_at_root() {
    let mut r = TieredMap::new();
    r.insert(1u32, "one");
    let mut s = r.new_scope();
    s.insert(2u32, "two");
    assert_eq!(s.get(&1), Some(&"one"));
    assert_eq!(s.get(&3), None);
    assert_eq!(r.get(&2), None);
    assert!(!s.contains_key(&3));
}

#[test]
fn size_at_scope_creation() {
    let mut r = TieredMap::with_capacity(16);
    r.insert("a", 1);
    r.insert("b", 2);
    let s = r.new_scope();
    assert_eq!(s.len(), r.len());
    assert_eq!(s.capacity(), r.capacity());
    assert!(r.capacity() >= 16);
}

#[test]
fn empty_root_scope() {
    let r: TieredMap<&str, u8> = TieredMap::new();
    let s = r.new_scope();
    assert_eq!(s.len(), 0);
    assert_eq!(s.get("x"), None);
    let mut it = s.iter();
    assert_eq!(it.len(), 0);
    assert_eq!(it.size_hint(), (0, Some(0)));
    assert_eq!(it.next(), None);
    assert_eq!(it.next(), None);
}

#[test]
fn exact_count_at_every_step() {
    let mut r = TieredMap::new();
    r.insert("a", 1);
    r.insert("b", 2);
    let mut s = r.new_scope();
    s.insert("c", 3);
    let mut t = s.new_scope();
    t.insert("d", 4);
    t.insert("e", 5);
    let mut it = t.iter();
    let mut left = it.len();
    assert_eq!(left, 5);
    while let Some(_) = it.next() {
        left -= 1;
        assert_eq!(it.len(), left);
        assert_eq!(it.size_hint(), (left, Some(left)));
    }
    assert_eq!(left, 0);
}

#[test]
fn iteration_yields_every_visible_pair() {
    let mut r = TieredMap::new();
    r.insert("a", 1);
    r.insert("b", 2);
    let mut s = r.new_scope();
    s.insert("c", 3);
    let mut seen = HashSet::new();
    let mut it = s.iter();
    while let Some((k, v)) = it.next() {
        seen.insert((*k, *v));
    }
    let expected: HashSet<(&str, i32)> = [("a", 1), ("b", 2), ("c", 3)].into_iter().collect();
    assert_eq!(seen, expected);
}

#[test]
fn shadowed_key_is_yielded_once_with_innermost_value() {
    let mut r = TieredMap::new();
    r.insert("a", 1);
    r.insert("b", 2);
    let mut s = r.new_scope();
    s.insert("a", 3);
    let mut it = s.iter();
    assert_eq!(it.len(), 2);
    assert_eq!(it.next(), Some((&"a", &3)));
    assert_eq!(it.len(), 1);
    assert_eq!(it.next(), Some((&"b", &2)));
    assert_eq!(it.size_hint(), (0, Some(0)));
    assert_eq!(it.next(), None);
}

#[test]
fn map_with_shadowed_key_equals_itself() {
    let mut r = TieredMap::new();
    r.insert("a", 1);
    let mut s = r.new_scope();
    s.insert("a", 3);
    assert!(s.eq(&s));
    let mut flat = TieredMap::new();
    flat.insert("a", 3);
    assert!(!s.eq(&flat));
}

#[test]
fn extend_copied_copies_pairs_into_current_tier() {
    let mut r = TieredMap::new();
    r.insert(1u32, 10u32);
    let mut s = r.new_scope();
    let (k1, v1, k2, v2) = (2u32, 20u32, 1u32, 11u32);
    s.extend_copied(vec![(&k1, &v1), (&k2, &v2)]);
    assert_eq!(s.get(&1), Some(&11));
    assert_eq!(s.get(&2), Some(&20));
    assert_eq!(r.get(&1), Some(&10));
    assert_eq!(s.len(), 3);
}

#[test]
fn capacity_with_adds_recorded_parent_capacity() {
    let mut r = TieredMap::new();
    r.reserve(10);
    r.insert("a", 1);
    let rc = r.capacity();
    let s = r.new_scope();
    assert_eq!(s.capacity_with(5), rc + 5);
    assert_eq!(s.capacity_with(usize::MAX), usize::MAX);
    assert_eq!(r.capacity_with(7), 7);
    assert!(s.capacity() >= s.len());
}

#[test]
fn extend_inserts_into_current_tier_only() {
    let mut r = TieredMap::new();
    r.insert("a", 1);
    let mut s = r.new_scope();
    s.extend(vec![("b", 2), ("a", 5), ("b", 7)]);
    assert_eq!(s.get("a"), Some(&5));
    assert_eq!(s.get("b"), Some(&7));
    assert_eq!(s.len(), 3);
    assert_eq!(r.get("b"), None);
    assert_eq!(r.get("a"), Some(&1));
}

#[test]
fn from_iter_keeps_last_duplicate() {
    let tm = TieredMap::<_, _, RandomState>::from_iter(vec![("a", 1), ("a", 2)]);
    assert_eq!(tm.len(), 1);
    assert_eq!(tm.get("a"), Some(&2));
}

#[test]
fn index_finds_innermost_value() {
    let mut r = TieredMap::new();
    r.insert("a", 1);
    let mut s = r.new_scope();
    s.insert("b", 2);
    assert_eq!(*s.index("a"), 1);
    assert_eq!(*s.index("b"), 2);
}

#[test]
fn custom_hasher_roots() {
    let mut a: TieredMap<u64, u64, RandomState> = TieredMap::with_hasher(RandomState::new());
    a.insert(1, 10);
    let _h: &RandomState = a.hasher();
    let mut b: TieredMap<u64, u64, RandomState> =
        TieredMap::with_capacity_and_hasher(8, RandomState::new());
    assert!(b.capacity() >= 8);
    b.insert(2, 20);
    let s = a.new_scope();
    assert_eq!(s.get(&1), Some(&10));
    assert_eq!(b.get(&2), Some(&20));
    assert_eq!(b.len(), 1);
}

#[test]
fn reserve_and_shrink_keep_entries() {
    let mut r = TieredMap::new();
    r.insert("a", 1);
    let mut s = r.new_scope();
    s.insert("b", 2);
    s.reserve(100);
    assert!(s.capacity() >= 100);
    s.shrink_to_fit();
    assert_eq!(s.len(), 2);
    assert_eq!(s.get("a"), Some(&1));
    assert_eq!(s.get("b"), Some(&2));
}

#[test]
fn equality_ignores_tier_shape() {
    let mut flat = TieredMap::new();
    flat.insert("a", 1);
    flat.insert("b", 2);
    let mut r = TieredMap::new();
    r.insert("a", 1);
    let mut s = r.new_scope();
    s.insert("b", 2);
    assert!(flat.eq(&s));
    assert!(s.eq(&flat));
}

#[test]
fn equality_sees_different_values_and_lengths() {
    let mut a = TieredMap::new();
    a.insert("a", 1);
    let mut b = TieredMap::new();
    b.insert("a", 2);
    assert!(!a.eq(&b));
    let mut c = TieredMap::new();
    c.insert("a", 1);
    c.insert("z", 9);
    assert!(!a.eq(&c));
    let mut d = TieredMap::new();
    d.insert("b", 1);
    assert!(!a.eq(&d));
}

#[test]
fn clone_keeps_contents_and_length() {
    let mut r = TieredMap::new();
    r.insert("a", 1);
    let mut s = r.new_scope();
    s.insert("b", 2);
    let c = s.clone();
    assert_eq!(c.len(), 2);
    assert_eq!(c.get("a"), Some(&1));
    assert_eq!(c.get("b"), Some(&2));
    assert!(c.eq(&s));
}

#[test]
fn default_is_an_empty_root() {
    let mut d: TieredMap<&str, i32, RandomState> = Default::default();
    assert_eq!(d.len(), 0);
    assert_eq!(d.get("a"), None);
    d.insert("a", 1);
    assert_eq!(d.get("a"), Some(&1));
}
