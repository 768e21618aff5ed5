use cp_lib::xorshift::XorShift;

#[test]
fn first_round_from_one() {
    let mut g = XorShift::new(1);
    assert_eq!(g.rand(), 270369);
}

#[test]
fn deterministic_for_equal_seeds() {
    let mut a = XorShift::new(0x9e3779b97f4a7c15);
    let mut b = XorShift::new(0x9e3779b97f4a7c15);
    for _ in 0..100 {
        assert_eq!(a.rand(), b.rand());
    }
}

#[test]
fn state_advances() {
    let mut g = XorShift::new(42);
    let first = g.rand();
    let second = g.rand();
    assert_ne!(first, second);
}
