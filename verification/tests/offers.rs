use ubuntu_drop::offers::{Offer, OfferFile, Registry, Status, total_size};

fn files() -> Vec<OfferFile> {
    vec![
        OfferFile { name: "a.jpg".into(), size: 100 },
        OfferFile { name: "b.jpg".into(), size: 200 },
    ]
}

#[test]
fn create_then_accept() {
    let mut reg = Registry::default();
    let o = reg.create("iPhone".into(), files(), None).unwrap();
    assert_eq!(o.status, Status::Pending);
    assert_eq!(o.total, 300);

    let decided = reg.decide(&o.id, true).unwrap();
    assert_eq!(decided.status, Status::Accepted);
    assert!(reg.pending().is_empty());
}

#[test]
fn decline_is_final() {
    let mut reg = Registry::default();
    let o = reg.create("Mac".into(), files(), None).unwrap();
    reg.decide(&o.id, false);
    // A second verdict must not flip a decided offer.
    let again = reg.decide(&o.id, true).unwrap();
    assert_eq!(again.status, Status::Declined);
}

#[test]
fn declining_releases_staged_bytes() {
    let mut reg = Registry::default();
    let dir = String::from("/tmp/drop-test-stage");
    let o = reg.create("iPhone".into(), files(), Some(dir.clone())).unwrap();
    reg.decide(&o.id, false);
    assert_eq!(reg.sweep(), vec![dir]);
}

#[test]
fn pending_lists_only_undecided() {
    let mut reg = Registry::default();
    let a = reg.create("A".into(), files(), None).unwrap();
    let _b = reg.create("B".into(), files(), None).unwrap();
    reg.decide(&a.id, true);
    let pending = reg.pending();
    assert_eq!(pending.len(), 1);
    assert_eq!(pending[0].device, "B");
}

#[test]
fn ids_are_sixteen_hex_digits() {
    let mut reg = Registry::new();
    let o = reg.create("A".into(), files(), None).unwrap();
    assert_eq!(o.id.len(), 16);
    assert!(o.id.chars().all(|c| c.is_ascii_hexdigit() && !c.is_ascii_uppercase()));
}

#[test]
fn pending_at_is_oldest_first_and_drops_expired() {
    let mut reg = Registry::new();
    reg.create_at("c".into(), "C".into(), files(), None, None, 300);
    reg.create_at("a".into(), "A".into(), files(), None, None, 100);
    reg.create_at("b".into(), "B".into(), files(), None, None, 200);
    let names: Vec<String> = reg.pending_at(350).into_iter().map(|o: Offer| o.device).collect();
    assert_eq!(names, vec!["A", "B", "C"]);
    // At 401 the first offer has waited more than 300 s.
    let names: Vec<String> = reg.pending_at(401).into_iter().map(|o: Offer| o.device).collect();
    assert_eq!(names, vec!["B", "C"]);
}

#[test]
fn get_marks_an_old_pending_offer_expired() {
    let mut reg = Registry::new();
    reg.create_at("x".into(), "X".into(), files(), None, None, 1000);
    assert_eq!(reg.get_at("x", 1300).unwrap().status, Status::Pending);
    assert_eq!(reg.get_at("x", 1301).unwrap().status, Status::Expired);
    assert!(reg.get_at("nope", 1301).is_none());
    // An expired offer can no longer be decided.
    assert_eq!(reg.decide("x", true).unwrap().status, Status::Expired);
}

#[test]
fn sweep_keeps_verdicts_until_twice_the_ttl() {
    let mut reg = Registry::new();
    reg.create_at("d".into(), "D".into(), files(), Some("/s/d".into()), None, 0);
    reg.create_at("p".into(), "P".into(), files(), Some("/s/p".into()), None, 0);
    reg.create_at("c".into(), "C".into(), files(), Some("/s/c".into()), None, 0);
    reg.decide("d", false);
    reg.set_status("c", Status::Complete);
    // Declined: the bytes go at once, the record stays.
    assert_eq!(reg.sweep_at(10), vec!["/s/d".to_string()]);
    assert_eq!(reg.get_at("d", 10).unwrap().staged, None);
    assert_eq!(reg.get_at("c", 10).unwrap().status, Status::Complete);
    // Pending past the TTL expires, and its bytes go.
    assert_eq!(reg.sweep_at(301), vec!["/s/p".to_string()]);
    assert_eq!(reg.get_at("p", 301).unwrap().status, Status::Expired);
    // Past twice the TTL every finished record is dropped; a completed
    // offer died decided, so its folder is not handed back.
    assert_eq!(reg.sweep_at(601), Vec::<String>::new());
    assert!(reg.get_at("c", 601).is_none());
    assert!(reg.get_at("d", 601).is_none());
    assert!(reg.get_at("p", 601).is_none());
}

#[test]
fn text_offers_carry_their_snippet() {
    let mut reg = Registry::new();
    let o = reg.create_text(
        "Mac".into(),
        OfferFile { name: "text-1.txt".into(), size: 5 },
        "/stage/x".into(),
        "hello".into(),
    )
    .unwrap();
    assert_eq!(o.total, 5);
    assert_eq!(o.text.as_deref(), Some("hello"));
    assert_eq!(o.staged.as_deref(), Some("/stage/x"));
}

#[test]
fn total_size_reports_overflow() {
    assert_eq!(total_size(&files()), Some(300));
    let big = vec![
        OfferFile { name: "a".into(), size: u64::MAX },
        OfferFile { name: "b".into(), size: 1 },
    ];
    assert_eq!(total_size(&big), None);
}

#[test]
fn status_names_are_lowercase() {
    assert_eq!(Status::Pending.name(), "pending");
    assert_eq!(Status::Complete.name(), "complete");
}

#[test]
fn expiry_is_strictly_after_the_ttl() {
    let mut reg = Registry::new();
    let o = reg.create_at("e".into(), "E".into(), files(), None, None, 50);
    assert!(!o.expired(350));
    assert!(o.expired(351));
    assert!(!o.expired(10));
}
