use tinykern::sync::{Mutex, Once, OnceCell, OnceState};

#[test]
fn once_runs_the_closure_exactly_once() {
    let mut o = Once::new();
    assert!(!o.is_complete());
    let mut hits = 0;
    o.call_once(|| hits += 1);
    assert!(o.is_complete());
    assert_eq!(hits, 1);
    o.call_once(|| hits += 10);
    assert!(o.is_complete());
    assert_eq!(hits, 1);
}

#[test]
fn once_state_starts_incomplete() {
    let o = Once::new();
    assert_eq!(o.state, OnceState::Incomplete);
}

#[test]
fn once_cell_stores_the_first_value_for_everyone() {
    let mut c: OnceCell<usize> = OnceCell::new();
    let first = *c.get_or_init(|| 7);
    assert_eq!(first, 7);
    // a later caller's closure is never run; the stored value wins
    let second = *c.get_or_init(|| 9);
    assert_eq!(second, 7);
    let third = *c.get_or_init(|| 11);
    assert_eq!(third, 7);
}

#[test]
fn once_cell_get_mut_sees_the_stored_value() {
    let mut c: OnceCell<String> = OnceCell::new();
    c.get_or_init(|| String::from("boot"));
    assert_eq!(c.get_mut().as_str(), "boot");
}

#[test]
fn mutex_counter_sees_every_increment() {
    let mut mu = Mutex::new(0usize);
    for _ in 0..100 {
        let mut g = mu.lock();
        *g.get_mut() += 1;
        mu.unlock(g);
    }
    let g = mu.lock();
    assert_eq!(*g.get(), 100);
    mu.unlock(g);
}

#[test]
fn mutex_round_trip_preserves_data() {
    let mut mu = Mutex::new(String::from("kernel"));
    let g = mu.lock();
    assert_eq!(g.get().as_str(), "kernel");
    mu.unlock(g);
    let g2 = mu.lock();
    assert_eq!(g2.get().as_str(), "kernel");
    mu.unlock(g2);
}
