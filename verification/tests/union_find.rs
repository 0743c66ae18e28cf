use union_find::{UnionFind, UnionFindError};

#[test]
fn test_new() {
    let v = UnionFind::new(10);
    for i in 0..10 {
        assert_eq!(v.parent(i), i);
    }
}

#[test]
fn test_cnx_union() {
    let mut v = UnionFind::new(10);
    assert!(!v.cnx(0, 1));
    v.union(0, 1);
    assert!(v.cnx(0, 1));
    assert!(!v.cnx(0, 2));
    v.union(1, 2);
    assert!(v.cnx(0, 1));
    assert!(v.cnx(0, 2));
    v.union(3, 4);
    assert!(v.cnx(3, 4));
    v.union(4, 5);
    v.union(3, 2);
    assert!(v.cnx(5, 0));
}

#[test]
fn test_find_after_new() {
    let mut v = UnionFind::new(7);
    for i in 0..7 {
        assert_eq!(v.find(i), i);
    }
}

#[test]
fn test_connected_reflexive() {
    let mut v = UnionFind::new(6);
    v.union(1, 4);
    for p in 0..6 {
        assert!(v.cnx(p, p));
    }
}

#[test]
fn test_connected_symmetric() {
    let mut v = UnionFind::new(6);
    v.union(0, 3);
    v.union(4, 5);
    for p in 0..6 {
        for q in 0..6 {
            assert_eq!(v.cnx(p, q), v.cnx(q, p));
        }
    }
}

#[test]
fn test_union_idempotent() {
    let mut once = UnionFind::new(8);
    let mut twice = UnionFind::new(8);
    once.union(0, 1);
    twice.union(0, 1);
    once.union(2, 3);
    twice.union(2, 3);
    twice.union(2, 3);
    for p in 0..8 {
        for q in 0..8 {
            assert_eq!(once.cnx(p, q), twice.cnx(p, q));
        }
    }
}

#[test]
fn test_union_chain_transitive() {
    let mut v = UnionFind::new(9);
    v.union(1, 2);
    v.union(2, 5);
    assert!(v.cnx(1, 5));
}

#[test]
fn test_union_commutative() {
    let mut a = UnionFind::new(8);
    let mut b = UnionFind::new(8);
    a.union(4, 7);
    b.union(7, 4);
    for p in 0..8 {
        for q in 0..8 {
            assert_eq!(a.cnx(p, q), b.cnx(p, q));
        }
    }
}

#[test]
fn test_union_monotone() {
    let mut v = UnionFind::new(10);
    v.union(0, 1);
    assert!(v.cnx(0, 1));
    v.union(5, 6);
    v.union(2, 3);
    v.union(1, 7);
    v.union(8, 9);
    v.union(9, 0);
    assert!(v.cnx(0, 1));
}

#[test]
fn test_weight_accumulation() {
    let mut v = UnionFind::new(10);
    // Equal weights: p's root wins and absorbs the other root's id.
    v.union(0, 1);
    assert_eq!(v.parent(1), 0);
    assert_eq!(v.weight(0), 1);
    assert_eq!(v.weight(1), 0);
    v.union(2, 3);
    assert_eq!(v.parent(3), 2);
    assert_eq!(v.weight(2), 3);
    // weight(0) == 1 < weight(2) == 3: root 0 goes under root 2, and the
    // absorbed root's id (0) is what gets added, so weight(2) stays 3.
    v.union(0, 2);
    assert_eq!(v.find(0), 2);
    assert_eq!(v.weight(2), 3);
}

#[test]
fn test_path_halving() {
    let mut v = UnionFind::new(10);
    v.union(0, 1);
    v.union(2, 3);
    v.union(0, 2);
    // The tree now has the path 1 -> 0 -> 2; looking 1 up rewrites 1's
    // parent to its grandparent, the root 2.
    assert_eq!(v.parent(1), 0);
    assert_eq!(v.find(1), 2);
    assert_eq!(v.parent(1), 2);
}

#[test]
fn test_out_of_range() {
    let mut v = UnionFind::new(10);
    v.union(0, 1);
    assert_eq!(v.try_find(10), Err(UnionFindError::IndexOutOfRange));
    assert_eq!(v.try_find(11), Err(UnionFindError::IndexOutOfRange));
    assert_eq!(v.try_cnx(0, 10), Err(UnionFindError::IndexOutOfRange));
    assert_eq!(v.try_cnx(10, 0), Err(UnionFindError::IndexOutOfRange));
    assert_eq!(v.try_union(usize::MAX, 0), Err(UnionFindError::IndexOutOfRange));
    assert_eq!(v.try_union(0, 10), Err(UnionFindError::IndexOutOfRange));
    // The failed calls left the structure unmutated.
    assert_eq!(v.parent(1), 0);
    for i in 2..10 {
        assert_eq!(v.parent(i), i);
    }
    assert_eq!(v.weight(0), 1);
    for i in 1..10 {
        assert_eq!(v.weight(i), 0);
    }
    // In-range ids still work through the checked calls.
    assert_eq!(v.try_find(1), Ok(0));
    assert_eq!(v.try_union(2, 3), Ok(()));
    assert_eq!(v.try_cnx(2, 3), Ok(true));
    assert_eq!(v.try_cnx(0, 2), Ok(false));
}

#[test]
fn test_empty() {
    let mut v = UnionFind::new(0);
    assert_eq!(v.try_find(0), Err(UnionFindError::IndexOutOfRange));
    assert_eq!(v.try_cnx(0, 0), Err(UnionFindError::IndexOutOfRange));
    assert_eq!(v.try_union(0, 0), Err(UnionFindError::IndexOutOfRange));
}
