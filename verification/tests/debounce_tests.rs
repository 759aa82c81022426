use bondstore::debounce::Debouncer;

#[test]
fn initial_output_follows_the_initial_value() {
    let low = Debouncer::new(false, 2, 5);
    assert!(!low.output());
    let high = Debouncer::new(true, 2, 5);
    assert!(high.output());
}

#[test]
fn rising_edge_fires_when_the_counter_reaches_the_transient_threshold() {
    // from steady low at -5, the transient threshold -3 is reached after
    // two high samples
    let mut d = Debouncer::new(false, 2, 5);
    assert!(!d.update(true));
    assert!(d.update(true));
    assert!(d.output());
}

#[test]
fn a_single_high_sample_is_ignored_in_steady_low() {
    let mut d = Debouncer::new(false, 2, 5);
    assert!(!d.update(true));
    assert!(!d.update(false));
    assert!(!d.output());
    assert!(!d.update(false));
    assert!(!d.output());
}

#[test]
fn output_stays_high_through_the_rising_transient() {
    let mut d = Debouncer::new(false, 2, 5);
    d.update(true);
    d.update(true);
    // the counter climbs from 0 to the steady threshold; the output is
    // high the whole way and no further edge fires
    for _ in 0..5 {
        assert!(!d.update(true));
        assert!(d.output());
    }
}

#[test]
fn release_from_steady_high_returns_to_steady_low() {
    let mut d = Debouncer::new(false, 2, 5);
    for _ in 0..7 {
        d.update(true);
    }
    assert!(d.output());
    // the first low sample crosses the transient threshold and leaves
    // the high state
    assert!(d.update(false));
    assert!(!d.output());
    // the counter then falls to the steady threshold; reaching it fires
    // the settled falling edge
    let mut fired = 0;
    for _ in 0..5 {
        if d.update(false) {
            fired += 1;
        }
    }
    assert_eq!(fired, 1);
    assert!(!d.output());
}
