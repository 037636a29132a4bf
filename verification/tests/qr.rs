use ubuntu_drop::qr::{plain_svg, svg, svg_from_matrix};

#[test]
fn renders_and_contains_the_pin() {
    let out = svg("http://192.168.0.1:8420", "481902", 8).unwrap();
    assert!(out.starts_with("<svg"));
    assert!(out.ends_with("</svg>"));
    assert!(out.contains("481902"));
}

#[test]
fn escapes_a_url_with_query_chars() {
    let out = svg("http://x/?a=1&b=2", "000000", 6).unwrap();
    assert!(out.contains("&amp;"));
}

#[test]
fn draws_one_square_per_dark_module() {
    let out = svg_from_matrix("u<", "1&2", 2, 2, &vec![true, false, false, true]);
    let expected = [
        "<svg xmlns=\"http://www.w3.org/2000/svg\" width=\"60\" height=\"144\" viewBox=\"0 0 60 144\">",
        "<rect width=\"60\" height=\"144\" rx=\"10\" fill=\"#ffffff\"/>",
        "<rect x=\"28\" y=\"28\" width=\"2\" height=\"2\" fill=\"#000000\"/>",
        "<rect x=\"30\" y=\"30\" width=\"2\" height=\"2\" fill=\"#000000\"/>",
        "<text x=\"30\" y=\"68\" text-anchor=\"middle\" font-family=\"monospace\" font-size=\"32\" font-weight=\"bold\" letter-spacing=\"6\" fill=\"#16181A\">1&amp;2</text>",
        "<text x=\"30\" y=\"92\" text-anchor=\"middle\" font-family=\"monospace\" font-size=\"12\" fill=\"#6E6C66\">u&lt;</text>",
        "</svg>",
    ]
    .concat();
    assert_eq!(out, expected);
}

#[test]
fn a_real_code_has_a_square_matrix() {
    let out = svg("http://x", "123456", 1).unwrap();
    // Version 1 is 21 modules wide: (21 + 8) * 1 + 40 = 69 pixels.
    assert!(out.starts_with("<svg xmlns=\"http://www.w3.org/2000/svg\" width=\"69\" height=\"153\""));
}

#[test]
fn overlong_data_is_refused() {
    let long = "x".repeat(8000);
    assert!(svg(&long, "000000", 1).is_err());
}

#[test]
fn plain_code_for_the_tray_is_an_svg() {
    let out = plain_svg("http://192.168.0.113:8420").unwrap();
    assert!(out.contains("<svg"));
    assert!(out.contains("#000000"));
    assert!(!out.contains("192.168"));
    assert!(plain_svg(&"x".repeat(8000)).is_err());
}

#[test]
fn six_hundred_bytes_always_encode() {
    let mixed = "a1".repeat(300);
    assert!(svg(&mixed, "000000", 1).is_ok());
    let bytes = "\u{7f}".repeat(600);
    assert!(plain_svg(&bytes).is_ok());
}
