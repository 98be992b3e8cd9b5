use nuclear_router::bitset::FixedBitSet;
use nuclear_router::error::{ErrorKind, RouterError};
use nuclear_router::owned_captures::OwnedCaptures;
use nuclear_router::router::Router;
use nuclear_router::strmap::{compare, StrMap};
use std::cmp::Ordering;

#[test]
fn bitset_basics() {
    let mut a = FixedBitSet::zero();
    assert!(a.is_zero());
    a.set(3, true);
    a.set(127, true);
    a.set(5, false);
    assert!(!a.is_zero());
    assert!(a.contains(3) && a.contains(127) && !a.contains(5));
    assert_eq!(a.iter_ones(), vec![3, 127]);
    assert_eq!(*a.get_inner(), (1u128 << 3) | (1u128 << 127));

    let mut b = FixedBitSet::zero();
    b.set(3, true);
    b.set(4, true);
    let mut c = a;
    c.intersect_with(&b);
    assert_eq!(c.iter_ones(), vec![3]);
    let mut d = a;
    d.union_with(&b);
    assert_eq!(d.iter_ones(), vec![3, 4, 127]);

    let full = FixedBitSet::one();
    assert_eq!(full.iter_ones().len(), 128);
    assert!(!full.contains(128));
}

#[test]
fn strmap_sorted_lookup() {
    let mut m: StrMap<u32> = StrMap::new();
    let keys = ["post", "file", "profile", "", "a"];
    for (i, k) in keys.iter().enumerate() {
        let chars: Vec<char> = k.chars().collect();
        *m.find_mut_with(&chars, || 0) += i as u32 + 1;
    }
    let again: Vec<char> = "file".chars().collect();
    *m.find_mut_with(&again, || 100) += 10;
    assert_eq!(m.len(), 5);
    let f: Vec<char> = "file".chars().collect();
    assert_eq!(m.find(&f), Some(&12));
    let p: Vec<char> = "post".chars().collect();
    assert_eq!(m.find(&p), Some(&1));
    let e: Vec<char> = Vec::new();
    assert_eq!(m.find(&e), Some(&4));
    let z: Vec<char> = "zzz".chars().collect();
    assert_eq!(m.find(&z), None);
}

#[test]
fn compare_is_lexicographic() {
    let a: Vec<char> = "ab".chars().collect();
    let b: Vec<char> = "abc".chars().collect();
    let c: Vec<char> = "b".chars().collect();
    assert_eq!(compare(&a, &b), Ordering::Less);
    assert_eq!(compare(&b, &a), Ordering::Greater);
    assert_eq!(compare(&b, &c), Ordering::Less);
    assert_eq!(compare(&a, &a), Ordering::Equal);
}

#[test]
fn error_values() {
    let e = RouterError::new(ErrorKind::Collision, "pattern collision occured");
    assert_eq!(e.kind(), ErrorKind::Collision);
    assert_eq!(e.message(), "pattern collision occured");
    assert_eq!(e.to_string(), "pattern collision occured");
}

#[test]
fn owned_captures_copy() {
    let mut router: Router<usize> = Router::new();
    router.insert("/u/:id/f/*rest", 1);
    let owned = {
        let path = String::from("/u/7/f/a/b");
        let (_, caps) = router.find(&path).unwrap();
        OwnedCaptures::new(&caps)
    };
    assert_eq!(owned.len(), 2);
    assert_eq!(owned.get("id"), Some("7"));
    assert_eq!(owned.get("rest"), Some("/a/b"));
    assert_eq!(owned.get("nope"), None);

    let mut it = owned.iter();
    assert_eq!(it.len(), 2);
    assert_eq!(it.next(), Some(("id", "7")));
    assert_eq!(it.next_back(), Some(("rest", "/a/b")));
    assert_eq!(it.next(), None);

    let mut it = owned.into_iter();
    assert_eq!(it.next_back(), Some(("rest".to_string(), "/a/b".to_string())));
    assert_eq!(it.next(), Some(("id".to_string(), "7".to_string())));
    assert_eq!(it.next(), None);

    let empty = OwnedCaptures::empty();
    assert_eq!(empty.len(), 0);
    assert_eq!(empty.get("id"), None);
}
