use sif::map::{MapGet, MapMut, Unwrap};
use sif::model::dense;
use sif::model::dense::DenseMap;
use sif::model::sparse;
use sif::model::sparse::SparseMap;
use std::collections::HashSet;

#[test]
fn dense_domain() {
    let mut domain = dense::Domain::<usize, usize>::default();
    assert_eq!(domain.len(), 0);
    assert_eq!(domain.keys().len(), domain.len());

    assert_eq!(domain.insert_default(), 0);
    assert_eq!(domain.len(), 1);
    assert_eq!(domain.keys().len(), domain.len());
    let mut keys = HashSet::new();
    for key in domain.keys() {
        assert!(keys.insert(key));
    }

    assert_eq!(domain.insert(1), 1);
    assert_eq!(domain.len(), 2);
    assert_eq!(domain.keys().len(), domain.len());
    let mut keys = HashSet::new();
    for key in domain.keys() {
        assert!(keys.insert(key));
    }
    for key in domain.keys() {
        assert_eq!(key, *domain.index(key));
    }
}

#[test]
fn sparse_domain() {
    let mut domain = sparse::Domain::<usize, usize>::default();
    assert_eq!(domain.len(), 0);
    assert_eq!(domain.keys().len(), domain.len());

    assert_eq!(domain.insert_default(), 0);
    assert_eq!(domain.len(), 1);
    assert_eq!(domain.keys().len(), domain.len());

    assert_eq!(domain.insert(1), 1);
    assert_eq!(domain.len(), 2);
    assert_eq!(domain.keys().len(), domain.len());
    let mut keys = HashSet::new();
    for key in domain.keys() {
        assert!(keys.insert(key));
    }
    for key in domain.keys() {
        assert_eq!(key, *domain.index(key));
    }

    domain.remove(0);
    assert_eq!(domain.len(), 1);
    assert_eq!(domain.keys().len(), domain.len());
    for key in domain.keys() {
        assert_eq!(key, *domain.index(key));
    }

    domain.remove(1);
    assert_eq!(domain.len(), 0);
    assert_eq!(domain.keys().len(), domain.len());
}

#[test]
fn dense_domain_keys_ascend() {
    let mut domain = dense::Domain::<usize, char>::default();
    assert_eq!(domain.insert('a'), 0);
    assert_eq!(domain.insert('b'), 1);
    assert_eq!(domain.insert('c'), 2);
    assert_eq!(domain.keys(), vec![0, 1, 2]);
    assert_eq!(domain.values(), &['a', 'b', 'c']);
    *domain.index_mut(1) = 'x';
    assert_eq!(domain.values(), &['a', 'x', 'c']);
}

#[test]
fn sparse_domain_reuses_last_freed_key() {
    let mut domain = sparse::Domain::<usize, u8>::default();
    assert_eq!(domain.insert(10), 0);
    assert_eq!(domain.insert(11), 1);
    assert_eq!(domain.insert(12), 2);
    assert_eq!(domain.remove(0), 10);
    assert_eq!(domain.remove(2), 12);
    assert_eq!(domain.insert(20), 2);
    assert_eq!(domain.insert(21), 0);
    assert_eq!(domain.insert(22), 3);
    assert_eq!(*domain.index(0), 21);
    assert_eq!(*domain.index(1), 11);
    assert_eq!(*domain.index(2), 20);
    *domain.index_mut(1) = 99;
    assert_eq!(*domain.index(1), 99);
    let mut keys = domain.keys();
    keys.sort();
    assert_eq!(keys, vec![0, 1, 2, 3]);
}

#[test]
fn dense_map_defaults_and_grows() {
    let mut map = DenseMap::<usize, &str>::with_capacity("foo", 2);
    assert_eq!(*map.get(7), "foo");
    *map.get_mut(5) = "bar";
    assert_eq!(*map.get(5), "bar");
    assert_eq!(*map.get(4), "foo");
    assert_eq!(*map.get(6), "foo");
    *map.get_mut(0) = "baz";
    assert_eq!(*map.get(0), "baz");
    assert_eq!(*map.get(5), "bar");
}

#[test]
fn sparse_map_defaults_and_keeps_writes() {
    let mut map = SparseMap::<usize, i32>::new(-1);
    assert_eq!(*map.get(1000), -1);
    *map.get_mut(1000) = 4;
    *map.get_mut(3) += 10;
    assert_eq!(*map.get(1000), 4);
    assert_eq!(*map.get(3), 9);
    assert_eq!(*map.get(4), -1);
    let other = SparseMap::<usize, i32>::with_capacity(7, 16);
    assert_eq!(*other.get(0), 7);
}

#[test]
fn unwrap_exposes_present_values() {
    let mut map = DenseMap::<usize, Option<u8>>::with_capacity(None, 0);
    *map.get_mut(2) = Some(5);
    *map.get_mut(0) = Some(9);
    let unwrapped = Unwrap::new(map);
    assert_eq!(*unwrapped.get(2), 5);
    assert_eq!(*unwrapped.get(0), 9);
}
