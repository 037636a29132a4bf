use ubuntu_drop::discovery::{advert_properties, host_label, sort_peers, Peer, PeerEvent, PeerTable};

fn resolved(fullname: &str, name: Option<&str>, addrs: Vec<(bool, &str)>) -> PeerEvent {
    PeerEvent::Resolved {
        fullname: fullname.to_string(),
        name: name.map(|s| s.to_string()),
        addresses: addrs.into_iter().map(|(v4, a)| (v4, a.to_string())).collect(),
        port: 8420,
    }
}

#[test]
fn advertised_host_name() {
    assert_eq!(host_label("keshava"), "keshava-drop.local.");
    assert_eq!(host_label("Kitchen Mac.2"), "Kitchen-Mac-2-drop.local.");
    let props = advert_properties("box");
    assert_eq!(props[0], ("name".to_string(), "box".to_string()));
    assert_eq!(props[1], ("os".to_string(), "linux".to_string()));
    assert_eq!(props[2], ("v".to_string(), "2".to_string()));
}

#[test]
fn browsing_keeps_the_list_current() {
    let mut t = PeerTable::new();
    t.apply(resolved("a._mydrop._tcp.local.", Some("Pixel"), vec![(false, "fe80::1"), (true, "10.0.0.3")]), "me");
    t.apply(resolved("me._mydrop._tcp.local.", Some("me"), vec![(true, "10.0.0.1")]), "me");
    t.apply(resolved("b._mydrop._tcp.local.", None, vec![(false, "fe80::2")]), "me");
    let list = t.peers();
    assert_eq!(list.len(), 1);
    assert_eq!(list[0].label, "Pixel");
    assert_eq!(list[0].host, "10.0.0.3");
    t.apply(resolved("c._mydrop._tcp.local.", None, vec![(true, "10.0.0.4")]), "me");
    assert_eq!(t.peers().len(), 2);
    t.apply(PeerEvent::Removed { fullname: "a._mydrop._tcp.local.".to_string() }, "me");
    t.apply(PeerEvent::Other, "me");
    let list = t.peers();
    assert_eq!(list.len(), 1);
    assert_eq!(list[0].label, "c._mydrop._tcp.local.");
}

#[test]
fn peers_sort_by_label_ignoring_case() {
    let p = |l: &str| Peer { label: l.to_string(), host: "h".to_string(), port: 1 };
    let out = sort_peers(vec![p("mac"), p("Attic"), p("Living"), p("bedroom")]);
    let labels: Vec<&str> = out.iter().map(|x| x.label.as_str()).collect();
    assert_eq!(labels, vec!["Attic", "bedroom", "Living", "mac"]);
}
