use ubuntu_drop::config::{
    fresh_config, hostname_from, http_url, pin_from_bytes, random_hex, random_pin, Config, COOKIE,
    DEFAULT_PORT, SESSION_SECS,
};

fn cfg() -> Config {
    Config {
        pin: "481902".into(),
        port: DEFAULT_PORT,
        dir: "/home/k/Drop".into(),
        name: "keshava".into(),
        auto_move: false,
        move_target: "/home/k/Downloads".into(),
        tunnel: false,
        require_approval: true,
        secret: "s".into(),
    }
}

#[test]
fn local_url_uses_the_port() {
    assert_eq!(cfg().local_url("192.168.0.113"), "http://192.168.0.113:8420");
    assert_eq!(http_url("127.0.0.1", 1), "http://127.0.0.1:1");
}

#[test]
fn landing_dir_follows_auto_move() {
    let mut c = cfg();
    assert_eq!(c.landing_dir(), "/home/k/Drop");
    c.auto_move = true;
    assert_eq!(c.landing_dir(), "/home/k/Downloads");
}

#[test]
fn pins_are_six_digits() {
    assert_eq!(pin_from_bytes(&vec![0x40, 0x42, 0x0f, 0x00]), "000000");
    assert_eq!(pin_from_bytes(&vec![1, 0, 0, 0]), "000001");
    assert_eq!(pin_from_bytes(&vec![0xff, 0xff, 0xff, 0xff]), "967295");
    let p = random_pin().unwrap();
    assert_eq!(p.len(), 6);
    assert!(p.chars().all(|c| c.is_ascii_digit()));
}

#[test]
fn hostnames_come_from_the_first_label() {
    assert_eq!(hostname_from(Some("keshava\n")), "keshava");
    assert_eq!(hostname_from(Some("box.local\n")), "box");
    assert_eq!(hostname_from(Some("  \n")), "drop");
    assert_eq!(hostname_from(Some(".x")), "drop");
    assert_eq!(hostname_from(None), "drop");
}

#[test]
fn secrets_are_hex() {
    let s = random_hex(32).unwrap();
    assert_eq!(s.len(), 64);
    assert!(s.chars().all(|c| c.is_ascii_hexdigit() && !c.is_ascii_uppercase()));
    assert_ne!(random_hex(32).unwrap(), s);
}

#[test]
fn constants() {
    assert_eq!(COOKIE, "drop_session");
    assert_eq!(SESSION_SECS, 12 * 60 * 60);
}

#[test]
fn first_run_defaults() {
    let c = fresh_config(Some("/home/k"), None, "keshava".to_string()).unwrap();
    assert_eq!(c.dir, "/home/k/Drop");
    assert_eq!(c.move_target, "/home/k/Downloads");
    assert_eq!(c.port, 8420);
    assert_eq!(c.name, "keshava");
    assert!(!c.auto_move && !c.tunnel && c.require_approval);
    assert_eq!(c.pin.len(), 6);
    assert!(c.pin.chars().all(|ch| ch.is_ascii_digit()));
    assert_eq!(c.secret.len(), 64);
    let d = fresh_config(None, Some("/dl"), "x".to_string()).unwrap();
    assert_eq!(d.dir, "./Drop");
    assert_eq!(d.move_target, "/dl");
}
