use ubuntu_drop::page::{escape, render, PAGE};

#[test]
fn render_fills_in_and_escapes() {
    let out = render("Tom & \"Jerry\" <b>", "192.168.0.2:8420", "/home/t/Drop");
    assert!(out.contains("<title>Drop &middot; Tom &amp; &quot;Jerry&quot; &lt;b&gt;</title>"));
    assert!(out.contains("192.168.0.2:8420"));
    assert!(out.contains("Saving to /home/t/Drop"));
    assert!(!out.contains("__NAME__"));
    assert!(!out.contains("__ADDR__"));
    assert!(!out.contains("__DIR__"));
    let expected = PAGE
        .replace("__NAME__", "Tom &amp; &quot;Jerry&quot; &lt;b&gt;")
        .replace("__ADDR__", "192.168.0.2:8420")
        .replace("__DIR__", "/home/t/Drop");
    assert_eq!(out, expected);
}

#[test]
fn escape_handles_ampersand_first() {
    let s: String = escape("a&lt;b").into_iter().collect();
    assert_eq!(s, "a&amp;lt;b");
    let s: String = escape("<\"x\">").into_iter().collect();
    assert_eq!(s, "&lt;&quot;x&quot;&gt;");
}
