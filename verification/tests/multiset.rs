use cp_lib::multiset::MultiSet;

#[test]
fn test_initialize() {
    let _: MultiSet = MultiSet::new();
}

#[test]
fn test_insert() {
    let mut m: MultiSet = MultiSet::new();
    m.insert(1);
    m.insert(2);
    m.insert(1);
    m.insert(3);
    assert_eq!(m.len(), 4);
}

#[test]
fn test_len() {
    let mut m: MultiSet = MultiSet::new();
    let entries = vec![1, 1, 2, 3, 4, 4, 4, 5];
    for &x in entries.iter() {
        m.insert(x);
    }
    assert_eq!(entries.len(), m.len());
}

#[test]
fn test_contains() {
    let mut m: MultiSet = MultiSet::new();
    for i in 1..5 {
        m.insert(i);
    }
    for i in 1..5 {
        assert!(m.contains(i));
    }
    assert!(!m.contains(5));
}

#[test]
fn test_remove() {
    let mut m: MultiSet = MultiSet::new();

    assert!(!m.remove(5));

    m.insert(1);
    m.insert(2);
    m.insert(1);

    assert!(m.remove(1));
    assert!(m.remove(1));
    assert!(!m.remove(1));

    m.insert(3);
    assert!(m.remove(2));
}

#[test]
fn test_iter() {
    let mut m: MultiSet = MultiSet::new();
    m.insert(1);
    m.insert(1);
    m.insert(2);
    m.insert(2);
    m.insert(3);
    m.insert(3);

    let mut iter = m.iter();
    assert_eq!(Some(1), iter.next());
    assert_eq!(Some(3), iter.next_back());
    assert_eq!(Some(1), iter.next());
    assert_eq!(Some(3), iter.next_back());
    assert_eq!(Some(2), iter.next());
    assert_eq!(Some(2), iter.next_back());
    assert_eq!(None, iter.next());
    assert_eq!(None, iter.next_back());
}
