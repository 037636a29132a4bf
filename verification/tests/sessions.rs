use ubuntu_drop::sessions::{name_for, Registry, STALE_SECS};

#[test]
fn opening_lists_the_device() {
    let mut r = Registry::default();
    assert!(r.open("10.0.0.5", Some("iPhone".into()), 1000));

    let live = r.live(1000);
    assert_eq!(live.len(), 1);
    assert_eq!(live[0].device, "iPhone");
    assert_eq!(live[0].ip, "10.0.0.5");
}

#[test]
fn nameless_devices_fall_back_to_their_address() {
    let mut r = Registry::default();
    r.open("10.0.0.9", None, 5);
    assert_eq!(r.live(5)[0].device, "Device at 10.0.0.9");

    // An empty string is not a name either.
    r.open("10.0.0.9", Some("   ".into()), 6);
    assert_eq!(r.live(6)[0].device, "Device at 10.0.0.9");
}

#[test]
fn re_entering_the_pin_is_not_a_new_arrival() {
    let mut r = Registry::default();
    assert!(r.open("10.0.0.5", Some("iPhone".into()), 100));
    assert!(!r.open("10.0.0.5", Some("iPhone".into()), 120));

    // Coming back is new again only once it has been quiet for the whole
    // window, measured from that second entry, which refreshed it.
    assert!(!r.open("10.0.0.5", Some("iPhone".into()), 120 + STALE_SECS));
    assert!(r.open("10.0.0.5", Some("iPhone".into()), 120 + STALE_SECS * 2 + 1));
}

#[test]
fn silence_drops_it_from_the_list() {
    let mut r = Registry::default();
    r.open("10.0.0.5", Some("iPhone".into()), 0);
    assert_eq!(r.live(STALE_SECS).len(), 1);
    assert_eq!(r.live(STALE_SECS + 1).len(), 0);
}

#[test]
fn polling_keeps_it_alive() {
    let mut r = Registry::default();
    r.open("10.0.0.5", Some("iPhone".into()), 0);
    for t in (0..300).step_by(10) {
        r.touch("10.0.0.5", None, t);
    }
    assert_eq!(r.live(295).len(), 1);
}

#[test]
fn touch_updates_a_name_learned_later() {
    let mut r = Registry::default();
    r.open("10.0.0.5", None, 0);
    r.touch("10.0.0.5", Some("Shubham's iPhone".into()), 1);
    assert_eq!(r.live(1)[0].device, "Shubham's iPhone");
}

#[test]
fn most_recent_first() {
    let mut r = Registry::default();
    r.open("10.0.0.1", Some("Mac".into()), 10);
    r.open("10.0.0.2", Some("iPhone".into()), 20);

    let live = r.live(20);
    assert_eq!(live[0].device, "iPhone");
    assert_eq!(live[1].device, "Mac");
}

#[test]
fn sweep_only_clears_the_long_gone() {
    let mut r = Registry::default();
    r.open("10.0.0.5", Some("iPhone".into()), 0);

    r.sweep(STALE_SECS * 2);
    assert_eq!(r.live(0).len(), 1, "recently stale is still tracked");

    r.sweep(STALE_SECS * 4 + 1);
    assert_eq!(r.live(0).len(), 0);
}

#[test]
fn names_are_trimmed() {
    assert_eq!(name_for(Some("  Mac \n".into()), "1.2.3.4"), "Mac");
    assert_eq!(name_for(None, "1.2.3.4"), "Device at 1.2.3.4");
}

#[test]
fn touch_ignores_unknown_devices_and_blank_names() {
    let mut r = Registry::new();
    r.touch("10.0.0.7", Some("Ghost".into()), 5);
    assert!(r.live(5).is_empty());
    r.open("10.0.0.7", Some("Pad".into()), 5);
    r.touch("10.0.0.7", Some("  ".into()), 6);
    assert_eq!(r.live(6)[0].device, "Pad");
}

#[test]
fn reopening_after_silence_restarts_the_session() {
    let mut r = Registry::new();
    r.open("10.0.0.8", Some("A".into()), 10);
    assert!(!r.open("10.0.0.8", Some("B".into()), 50));
    assert_eq!(r.live(50)[0].since, 10);
    assert_eq!(r.live(50)[0].device, "B");
    assert!(r.open("10.0.0.8", Some("C".into()), 200));
    assert_eq!(r.live(200)[0].since, 200);
}
