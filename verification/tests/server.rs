use ubuntu_drop::auth::{issue_at, issue};
use ubuntu_drop::config::Config;
use ubuntu_drop::offers::{Offer, OfferFile, Status};
use ubuntu_drop::server::{
    attachment_header, authed, authed_at, clip_text, clippable, clock, cookie_token, device_header,
    is_hidden, newest_first, offer_device, parse_utc_offset, record_recent, requested_file,
    sender_name, session_cookie_header, snippet_body, snippet_name, snippet_route, sort_newest_first, tunnel_step, upload_route,
    verdict_plan, Received, SnippetError, SnippetRoute, TunnelStep, UploadRoute, VerdictPlan, LIST_MAX, MAX_TEXT,
    RECENT_MAX,
};

fn received(name: &str) -> Received {
    Received { name: name.to_string(), size: "1 B".to_string(), when: "00:00".to_string() }
}

#[test]
fn finds_the_session_cookie_among_others() {
    assert_eq!(cookie_token("theme=dark; drop_session=abc.def ; x=1"), Some("abc.def".to_string()));
    assert_eq!(cookie_token("drop_session = tok"), Some("tok".to_string()));
    assert_eq!(cookie_token("theme=dark"), None);
    assert_eq!(cookie_token("drop_sessionx=1; nope"), None);
}

#[test]
fn a_cookie_or_the_pin_authorises() {
    let tok = issue_at("s3cret", 60, 1000);
    let cookie = format!("drop_session={tok}");
    assert!(authed_at("s3cret", "123456", Some(&cookie), None, 1010));
    assert!(!authed_at("s3cret", "123456", Some(&cookie), None, 1061));
    assert!(!authed_at("other", "123456", Some(&cookie), None, 1010));
    assert!(authed_at("s3cret", "123456", None, Some(" 123456 "), 5));
    assert!(!authed_at("s3cret", "123456", None, Some("123457"), 5));
    assert!(!authed_at("s3cret", "123456", None, None, 5));
    let live = format!("drop_session={}", issue("s3cret", 60));
    assert!(authed("s3cret", "123456", Some(&live), None));
}

#[test]
fn session_cookie_header_has_every_attribute() {
    assert_eq!(
        session_cookie_header("t.x", 43200),
        "drop_session=t.x; HttpOnly; SameSite=Lax; Path=/; Max-Age=43200"
    );
}

#[test]
fn device_header_is_trimmed_and_capped() {
    assert_eq!(device_header(Some("  iPhone ")), Some("iPhone".to_string()));
    assert_eq!(device_header(Some("   ")), None);
    assert_eq!(device_header(None), None);
    let long = "x".repeat(100);
    assert_eq!(device_header(Some(&long)).unwrap().chars().count(), 64);
}

#[test]
fn senders_without_a_name_are_their_address() {
    assert_eq!(sender_name(Some("Mac".to_string()), "10.0.0.2"), "Mac");
    assert_eq!(sender_name(None, "10.0.0.2"), "Device at 10.0.0.2");
    assert_eq!(offer_device(Some("  ".to_string()), "fallback".to_string()), "fallback");
    assert_eq!(offer_device(Some("Pixel".to_string()), "fallback".to_string()), "Pixel");
    assert_eq!(offer_device(None, "fallback".to_string()), "fallback");
}

#[test]
fn clock_formats_local_time() {
    assert_eq!(clock(0, 0), "00:00");
    assert_eq!(clock(3600 * 13 + 60 * 7, 0), "13:07");
    assert_eq!(clock(0, 5 * 3600 + 30 * 60), "05:30");
    assert_eq!(clock(0, -3600), "23:00");
    assert_eq!(clock(86400 * 3 + 59, 0), "00:00");
}

#[test]
fn reads_date_utc_offsets() {
    assert_eq!(parse_utc_offset("+0530\n"), Some(19800));
    assert_eq!(parse_utc_offset("-0800"), Some(-28800));
    assert_eq!(parse_utc_offset("+0000"), Some(0));
    assert_eq!(parse_utc_offset("+05"), None);
    assert_eq!(parse_utc_offset("abcd"), None);
}

#[test]
fn snippets_are_trimmed_and_bounded() {
    assert_eq!(snippet_body("hello\n\n"), Ok("hello".to_string()));
    assert_eq!(snippet_body("\n\n"), Err(SnippetError::Empty));
    assert_eq!(snippet_body(""), Err(SnippetError::Empty));
    let big = "a".repeat(MAX_TEXT + 1);
    assert_eq!(snippet_body(&big), Err(SnippetError::TooLong));
    let exact = "a".repeat(MAX_TEXT);
    assert_eq!(snippet_body(&exact).unwrap().len(), MAX_TEXT);
}

#[test]
fn shared_text_is_clipped_to_the_limit() {
    let big = "b".repeat(MAX_TEXT + 10);
    assert!(clippable(&big));
    assert_eq!(clip_text(&big).len(), MAX_TEXT);
    assert_eq!(clip_text("short"), "short");
    let mut split = "a".repeat(MAX_TEXT - 1);
    split.push('é');
    assert!(!clippable(&split));
}

#[test]
fn uploads_go_where_the_verdict_says() {
    assert_eq!(upload_route(true, None, true), UploadRoute::NoSuchOffer);
    assert_eq!(upload_route(true, Some(Status::Pending), true), UploadRoute::NotAccepted(Status::Pending));
    assert_eq!(upload_route(true, Some(Status::Declined), false), UploadRoute::NotAccepted(Status::Declined));
    assert_eq!(upload_route(true, Some(Status::Accepted), true), UploadRoute::IntoDropForOffer);
    assert_eq!(upload_route(false, None, false), UploadRoute::IntoDrop);
    assert_eq!(upload_route(false, None, true), UploadRoute::Stage);
}

#[test]
fn verdicts_on_staged_bytes() {
    let mut o = Offer {
        id: "abc".to_string(),
        device: "iPhone".to_string(),
        files: vec![OfferFile { name: "a.jpg".to_string(), size: 3 }],
        total: 3,
        status: Status::Pending,
        created: 0,
        staged: None,
        text: None,
    };
    assert!(matches!(verdict_plan(&o, true), VerdictPlan::Tell));
    o.staged = Some("/tmp/stage".to_string());
    assert!(matches!(verdict_plan(&o, true), VerdictPlan::Surface(ref d) if d == "/tmp/stage"));
    assert!(matches!(verdict_plan(&o, false), VerdictPlan::Discard(ref d) if d == "/tmp/stage"));
}

#[test]
fn recent_list_keeps_the_newest() {
    let mut recent = Vec::new();
    for i in 0..(RECENT_MAX + 3) {
        record_recent(&mut recent, received(&format!("f{i}")));
    }
    assert_eq!(recent.len(), RECENT_MAX);
    assert_eq!(recent[0].name, format!("f{}", RECENT_MAX + 2));
    assert_eq!(recent[RECENT_MAX - 1].name, "f3");
}

#[test]
fn dotfiles_are_hidden() {
    assert!(is_hidden(".staging"));
    assert!(!is_hidden("photo.jpg"));
    assert!(!is_hidden(""));
}

#[test]
fn listings_are_newest_first_and_stable() {
    let entries = vec![(5, received("a")), (9, received("b")), (5, received("c")), (1, received("d"))];
    let sorted = sort_newest_first(entries);
    let names: Vec<&str> = sorted.iter().map(|(_, r)| r.name.as_str()).collect();
    assert_eq!(names, vec!["b", "a", "c", "d"]);
    let many: Vec<(u64, Received)> = (0..(LIST_MAX as u64 + 5)).map(|i| (i, received(&i.to_string()))).collect();
    let listed = newest_first(many);
    assert_eq!(listed.len(), LIST_MAX);
    assert_eq!(listed[0].name, (LIST_MAX + 4).to_string());
}

#[test]
fn downloads_keep_only_the_last_component() {
    assert_eq!(attachment_header("a\"b.txt"), "attachment; filename=\"ab.txt\"");
    assert_eq!(requested_file("../../etc/passwd"), Some("passwd".to_string()));
    assert_eq!(requested_file(".."), None);
    assert_eq!(requested_file(""), None);
}

#[test]
fn tunnel_supervisor_steps() {
    assert_eq!(tunnel_step(true, false), TunnelStep::Start);
    assert_eq!(tunnel_step(true, true), TunnelStep::Keep);
    assert_eq!(tunnel_step(false, true), TunnelStep::Stop);
    assert_eq!(tunnel_step(false, false), TunnelStep::Stop);
}

#[test]
fn snippets_are_saved_under_their_arrival_time() {
    assert_eq!(snippet_name(1700000000), "text-1700000000.txt");
    assert_eq!(snippet_name(0), "text-0.txt");
}

#[test]
fn snippets_wait_for_approval_unless_it_is_off() {
    let mut cfg = Config {
        pin: "000000".into(),
        port: 8420,
        dir: "/d".into(),
        name: "n".into(),
        auto_move: false,
        move_target: "/m".into(),
        tunnel: false,
        require_approval: true,
        secret: "s".into(),
    };
    assert!(matches!(snippet_route(&cfg), SnippetRoute::Offer));
    cfg.require_approval = false;
    assert!(matches!(snippet_route(&cfg), SnippetRoute::Land(ref d) if d == "/d"));
    cfg.auto_move = true;
    assert!(matches!(snippet_route(&cfg), SnippetRoute::Land(ref d) if d == "/m"));
}
