use netcore::input::{InputLookup, InputRing};

fn state(t: u16) -> Vec<u8> {
    vec![(t % 256) as u8, (t / 256) as u8]
}

#[test]
fn redundancy_window_survives_seven_lost_datagrams() {
    // The client sends, each tick, its last 8 inputs newest first.
    let mut client = InputRing::new(64);
    let mut server = InputRing::new(64);
    for t in 990u16..=1010 {
        client.store(t, state(t));
        let window = client.window_from(t, 8);
        // Datagrams of ticks 1001..=1007 are lost.
        if t > 1000 && t < 1008 {
            continue;
        }
        server.deposit(t, window, 995);
    }
    for t in 995u16..=1010 {
        match server.lookup(t) {
            InputLookup::Exact(v) => assert_eq!(v, state(t)),
            _ => panic!("tick {} starved", t),
        }
    }
}

#[test]
fn window_stops_at_first_gap() {
    let mut ring = InputRing::new(16);
    ring.store(10, vec![10]);
    ring.store(9, vec![9]);
    ring.store(7, vec![7]);
    assert_eq!(ring.window_from(10, 8), vec![vec![10], vec![9]]);
    assert_eq!(ring.window_from(10, 1), vec![vec![10]]);
}

#[test]
fn missing_tick_falls_back_to_newest() {
    let mut ring = InputRing::new(16);
    assert!(matches!(ring.lookup(5), InputLookup::Missing));
    ring.deposit(4, vec![vec![4], vec![3]], 0);
    match ring.lookup(5) {
        InputLookup::Starved(v) => assert_eq!(v, vec![4]),
        _ => panic!("expected the newest input"),
    }
    match ring.lookup(3) {
        InputLookup::Exact(v) => assert_eq!(v, vec![3]),
        _ => panic!("expected an exact input"),
    }
}

#[test]
fn inputs_already_simulated_are_discarded() {
    let mut ring = InputRing::new(16);
    ring.deposit(12, vec![vec![12], vec![11], vec![10], vec![9]], 11);
    assert!(matches!(ring.lookup(12), InputLookup::Exact(_)));
    assert!(matches!(ring.lookup(11), InputLookup::Exact(_)));
    assert!(matches!(ring.lookup(10), InputLookup::Starved(_)));
    assert!(matches!(ring.lookup(9), InputLookup::Starved(_)));
}

#[test]
fn deposit_across_tick_wrap() {
    let mut ring = InputRing::new(8);
    ring.deposit(1, vec![vec![1], vec![0], vec![0xff], vec![0xfe]], 65534);
    match ring.lookup(65535) {
        InputLookup::Exact(v) => assert_eq!(v, vec![0xff]),
        _ => panic!("expected an exact input"),
    }
    match ring.lookup(65534) {
        InputLookup::Exact(v) => assert_eq!(v, vec![0xfe]),
        _ => panic!("expected an exact input"),
    }
}

#[test]
fn late_inputs_leave_the_ring_untouched() {
    let mut ring = InputRing::new(4);
    ring.deposit(20, vec![vec![20], vec![19]], 19);
    let slots_before = ring.slots.clone();
    let newest_before = ring.newest;
    // Ticks 16..=18 are already simulated; 16 would share 20's slot.
    ring.deposit(18, vec![vec![18], vec![17], vec![16]], 19);
    assert_eq!(ring.slots, slots_before);
    assert_eq!(ring.newest, newest_before);
    match ring.lookup(20) {
        InputLookup::Exact(v) => assert_eq!(v, vec![20]),
        _ => panic!("tick 20 overwritten"),
    }
}
