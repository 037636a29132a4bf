use ubuntu_drop::tunnel::{any_found, available, extract_url, tunnel_candidates};

#[test]
fn finds_url_in_banner_line() {
    let line = "|  https://neat-words-here.trycloudflare.com    |";
    assert_eq!(
        extract_url(line).as_deref(),
        Some("https://neat-words-here.trycloudflare.com")
    );
}

#[test]
fn ignores_unrelated_urls() {
    assert_eq!(extract_url("see https://developers.cloudflare.com/x"), None);
    assert_eq!(extract_url("no url at all"), None);
}

#[test]
fn trims_trailing_punctuation_and_quotes() {
    assert_eq!(
        extract_url("url=\"https://a-b.trycloudflare.com\", ok").as_deref(),
        Some("https://a-b.trycloudflare.com")
    );
    assert_eq!(
        extract_url("go to https://x.trycloudflare.com.,").as_deref(),
        Some("https://x.trycloudflare.com")
    );
}

#[test]
fn only_the_first_url_counts() {
    assert_eq!(
        extract_url("https://docs.example.com then https://x.trycloudflare.com"),
        None
    );
}

#[test]
fn no_path_means_no_cloudflared() {
    assert!(!available(None));
    assert!(!available(Some("/drop-test-missing-dir:/drop-test-missing-too")));
}

#[test]
fn cloudflared_is_looked_for_in_each_path_directory() {
    let got: Vec<String> = tunnel_candidates("/usr/bin:/opt/cf/:").into_iter().map(|c| c.into_iter().collect()).collect();
    assert_eq!(got, vec!["/usr/bin/cloudflared", "/opt/cf/cloudflared", "cloudflared"]);
}

#[test]
fn any_answer_of_yes_finds_it() {
    assert!(any_found(&vec![false, true]));
    assert!(!any_found(&vec![false, false]));
    assert!(!any_found(&vec![]));
}
