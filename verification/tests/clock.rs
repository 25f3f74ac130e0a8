use domers::clock::FakeClock;

#[test]
fn advances_deterministically() {
    let mut clock = FakeClock::default();
    clock.advance_ms(42);
    assert_eq!(clock.now_ms(), 42);
}

#[test]
fn advancing_twice_adds_and_saturates() {
    let mut clock = FakeClock::default();
    clock.advance_ms(10);
    clock.advance_ms(32);
    assert_eq!(clock.now_ms(), 42);
    clock.advance_ms(u64::MAX - 50);
    assert_eq!(clock.now_ms(), u64::MAX - 8);
    clock.advance_ms(100);
    assert_eq!(clock.now_ms(), u64::MAX);
    clock.advance_ms(1);
    assert_eq!(clock.now_ms(), u64::MAX);
}
