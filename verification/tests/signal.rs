use dinamika::{Computed, Signal};

#[test]
fn computed_tracks_sources() {
    let x = Signal::new(4.0_f32);
    let doubled = {
        let x = x.clone();
        Computed::new(move || x.get() * 2.0)
    };
    assert_eq!(doubled.get(), 8.0);
    x.set(5.0);
    assert_eq!(doubled.get(), 10.0);
}

#[test]
fn signal_shares_value() {
    let a = Signal::new(1.0_f32);
    let b = a.clone();
    a.set(42.0);
    assert_eq!(b.get(), 42.0);
}

#[test]
fn computed_sums_two_signals() {
    let a = Signal::new(2);
    let b = Signal::new(3);
    let sum = {
        let (a, b) = (a.clone(), b.clone());
        Computed::new(move || a.get() + b.get())
    };
    assert_eq!(sum.get(), 5);
    a.set(10);
    assert_eq!(sum.get(), 13);
    assert_eq!(sum.clone().get(), 13);
}
