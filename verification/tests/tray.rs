use ubuntu_drop::tray::{arrival_message, arrivals, short, Action, DropTray, MenuEntry, Status};

fn status() -> Status {
    Status {
        name: "keshava".into(),
        pin: "481902".into(),
        dir: "/home/k/Drop".into(),
        local_url: "http://192.168.0.113:8420".into(),
        tunnel_enabled: false,
        tunnel_url: None,
        auto_move: false,
        move_target: "/home/k/Downloads".into(),
        received: 0,
        peers: 0,
        files_waiting: 0,
    }
}

fn labels(menu: &[MenuEntry]) -> Vec<String> {
    menu.iter()
        .map(|e| match e {
            MenuEntry::Item { label, .. } | MenuEntry::Check { label, .. } => label.clone(),
            MenuEntry::Separator => "-".to_string(),
        })
        .collect()
}

#[test]
fn short_drops_the_scheme() {
    assert_eq!(short("https://neat-words.trycloudflare.com"), "neat-words.trycloudflare.com");
    assert_eq!(short("http://x"), "http://x");
}

#[test]
fn title_icon_and_tooltip() {
    let mut t = DropTray { port: 8420, status: None };
    assert_eq!(t.title(), "Drop — not running");
    assert_eq!(t.icon_name(), "network-offline");
    assert_eq!(t.tool_tip_text(), "Daemon not reachable");
    assert_eq!(t.url("/api/status"), "http://127.0.0.1:8420/api/status");
    assert_eq!(t.id(), "drop");
    let mut s = status();
    s.files_waiting = 2;
    t.status = Some(s);
    assert_eq!(t.title(), "Drop — keshava");
    assert_eq!(t.icon_name(), "folder-download");
    assert_eq!(t.tool_tip_text(), "http://192.168.0.113:8420\nPIN 481902\n2 waiting");
}

#[test]
fn idle_menu_offers_to_start() {
    let t = DropTray { port: 8420, status: None };
    assert_eq!(labels(&t.menu()), vec!["Daemon not running", "-", "Start it", "-", "Quit"]);
}

#[test]
fn running_menu_lists_everything() {
    let mut s = status();
    s.tunnel_url = Some("https://neat.trycloudflare.com".into());
    s.peers = 2;
    s.files_waiting = 1;
    let t = DropTray { port: 8420, status: Some(s) };
    let menu = t.menu();
    assert_eq!(
        labels(&menu),
        vec![
            "Receiving as “keshava”",
            "-",
            "PIN  481902",
            "http://192.168.0.113:8420",
            "Internet: neat.trycloudflare.com",
            "Show QR code…",
            "-",
            "1 file waiting",
            "2 other devices nearby",
            "Open Drop folder",
            "Move all to Downloads",
            "Always move to Downloads",
            "-",
            "Reachable from the internet",
            "New PIN",
            "-",
            "Quit",
        ]
    );
    assert!(matches!(&menu[5], MenuEntry::Item { action: Action::ShowQr(u), .. } if u == "https://neat.trycloudflare.com"));
}

#[test]
fn empty_folder_disables_move_all() {
    let mut s = status();
    s.tunnel_enabled = true;
    let t = DropTray { port: 8420, status: Some(s) };
    let menu = t.menu();
    let l = labels(&menu);
    assert!(l.contains(&"Internet: starting…".to_string()));
    assert!(l.contains(&"Drop folder is empty".to_string()));
    let mv = menu.iter().find(|e| matches!(e, MenuEntry::Item { label, .. } if label == "Move all to Downloads")).unwrap();
    assert!(matches!(mv, MenuEntry::Item { enabled: false, .. }));
}

#[test]
fn toggles_flip_only_their_switch() {
    let mut t = DropTray { port: 8420, status: Some(status()) };
    assert!(t.toggle_auto_move());
    assert!(t.status.as_ref().unwrap().auto_move);
    assert!(t.toggle_tunnel());
    assert!(!t.toggle_tunnel());
    assert_eq!(t.status.as_ref().unwrap().pin, "481902");
    let mut idle = DropTray { port: 1, status: None };
    assert!(idle.toggle_auto_move());
    assert!(idle.status.is_none());
}

#[test]
fn arrivals_are_announced_once() {
    assert_eq!(arrivals(None, 7), (Some(7), None));
    assert_eq!(arrivals(Some(7), 9), (Some(9), Some(2)));
    assert_eq!(arrivals(Some(9), 9), (Some(9), None));
    assert_eq!(arrival_message(1, "/d"), "1 new file in /d");
    assert_eq!(arrival_message(3, "/d"), "3 new files in /d");
}
