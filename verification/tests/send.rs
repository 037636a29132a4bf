use ubuntu_drop::discovery::Peer;
use ubuntu_drop::send::{
    direct_hostport, expand, find_peer, keep_waiting, offer_reply, peer_address, poll_status, text_reply,
    upload_name, upload_reply, upload_url, worth_sending, OfferReply, Poll, SendError, TextReply,
    UploadReply,
};

fn peer(label: &str) -> Peer {
    Peer { label: label.to_string(), host: "10.0.0.7".to_string(), port: 8420 }
}

#[test]
fn numeric_targets_and_urls_need_no_lookup() {
    assert_eq!(direct_hostport("192.168.0.5"), Some("192.168.0.5:8420".to_string()));
    assert_eq!(direct_hostport("192.168.0.5:9000"), Some("192.168.0.5:9000".to_string()));
    assert_eq!(direct_hostport("http://10.0.0.2:8420"), Some("10.0.0.2:8420".to_string()));
    assert_eq!(direct_hostport("https://box.example"), Some("box.example:8420".to_string()));
    assert_eq!(direct_hostport("300.1.1.1"), None);
    assert_eq!(direct_hostport("kitchen-mac"), None);
}

#[test]
fn names_match_exactly_before_partially() {
    let peers = vec![peer("Living Room Mac"), peer("mac"), peer("Pixel")];
    assert_eq!(find_peer(&peers, "MAC"), Some(1));
    assert_eq!(find_peer(&peers, "pix"), Some(2));
    assert_eq!(find_peer(&peers, "room"), Some(0));
    assert_eq!(find_peer(&peers, "ipad"), None);
    assert_eq!(peer_address(&peers[2]), "10.0.0.7:8420");
}

#[test]
fn offer_status_polling() {
    assert_eq!(poll_status(Some("accepted"), false), Poll::Go);
    assert_eq!(poll_status(Some("complete"), false), Poll::Wait);
    assert_eq!(poll_status(Some("complete"), true), Poll::Go);
    assert_eq!(poll_status(Some("declined"), false), Poll::Stop(SendError::Declined));
    assert_eq!(poll_status(Some("expired"), true), Poll::Stop(SendError::Expired));
    assert_eq!(poll_status(Some("pending"), true), Poll::Wait);
    assert_eq!(poll_status(None, false), Poll::Wait);
}

#[test]
fn receiver_answers() {
    assert_eq!(offer_reply(401), OfferReply::WrongPin);
    assert_eq!(offer_reply(201), OfferReply::AwaitVerdict);
    assert_eq!(offer_reply(404), OfferReply::UploadDirectly);
    assert_eq!(upload_reply(401), UploadReply::Failed(SendError::WrongPin));
    assert_eq!(upload_reply(202), UploadReply::Staged);
    assert_eq!(upload_reply(200), UploadReply::Saved);
    assert_eq!(upload_reply(500), UploadReply::Failed(SendError::Server(500)));
    assert_eq!(text_reply(413), TextReply::Failed(SendError::TooLong));
    assert_eq!(text_reply(200), TextReply::Sent);
    assert_eq!(text_reply(202), TextReply::AwaitVerdict);
    assert_eq!(text_reply(401), TextReply::Failed(SendError::WrongPin));
    assert_eq!(text_reply(503), TextReply::Failed(SendError::Server(503)));
}

#[test]
fn error_messages() {
    assert_eq!(SendError::NoPeer.message("den"), "no peer matching 'den'. try: drop peers");
    assert_eq!(SendError::WrongPin.message("x"), "rejected: wrong PIN");
    assert_eq!(SendError::TooLong.message("x"), "too long — send it as a file");
    assert_eq!(SendError::Server(502).message("x"), "server said 502 Bad Gateway");
    assert_eq!(SendError::Server(599).message("x"), "server said 599 <unknown status code>");
    assert_eq!(SendError::Server(42).message("x"), "server said 42");
    assert_eq!(SendError::NothingToSend.message("x"), "nothing to send");
}

#[test]
fn what_goes_over_the_wire() {
    assert!(!worth_sending("  \n\t"));
    assert!(worth_sending(" hi "));
    assert_eq!(upload_name("/home/k/photo.jpg"), "photo.jpg");
    assert_eq!(upload_name("/"), "untitled");
    assert_eq!(upload_url("10.0.0.2:8420", None), "http://10.0.0.2:8420/api/upload");
    assert_eq!(upload_url("10.0.0.2:8420", Some("ab12")), "http://10.0.0.2:8420/api/upload?offer=ab12");
    assert_eq!(expand(&vec!["a".to_string(), "b/c".to_string()]), vec!["a".to_string(), "b/c".to_string()]);
}

#[test]
fn senders_give_up_after_two_minutes() {
    assert_eq!(keep_waiting(0), Ok(()));
    assert_eq!(keep_waiting(120_000), Ok(()));
    assert_eq!(keep_waiting(120_001), Err(SendError::TimedOut));
}
