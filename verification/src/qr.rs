//! The pairing QR as an SVG, with the PIN and URL as a caption beneath it.
//!
//! Built from the module matrix rather than `qrcode`'s SVG renderer so there
//! is room for the caption: scanning and typing then happen in one glance.

use vstd::prelude::*;
use crate::text::{decimal, extend_chars, extend_str, push_decimal, replace_all, string_of, chars_of, replace_exec};

verus! {

/// Modules of quiet zone on each side.
pub const QUIET: usize = 4;

/// Pixels of padding around the code.
pub const PAD: usize = 20;

/// Pixels of caption under the code.
pub const CAPTION: usize = 84;

#[verifier::external_type_specification]
#[verifier::external_body]
pub struct ExQrError(qrcode::types::QrError);

/// Data of at most this many bytes always fits a QR code at level M. In
/// `qrcode`, the encoder merges neighbouring segments only where that does
/// not lengthen the bits, so each byte costs at most a segment of its own:
/// 4 mode bits, 16 length bits and 8 data bits at version 40, and
/// 600 · 28 = 16800 bits fit the 18672 data bits of version 40 at level M.
pub const QR_SURE_BYTES: usize = 600;

/// The QR code `qrcode` builds for `data`: its width in modules and its
/// modules row by row, `true` for dark; `None` when the data does not fit.
pub uninterp spec fn qr_matrix(data: Seq<u8>) -> Option<(nat, Seq<bool>)>;

/// Calls `QrCode::new` (error correction level M, smallest version that
/// fits), then `width` and `to_colors`. Claims the result is the named
/// function of the data, that the matrix is square, and that the width is
/// that of a version 1 to 40 code (21 to 177 modules); data of at most
/// `QR_SURE_BYTES` always encodes.
#[verifier::external_body]
fn qr_encode(data: &[u8]) -> (r: Result<(usize, Vec<bool>), qrcode::types::QrError>)
    ensures
        match r {
            Ok((w, cells)) => qr_matrix(data@) == Some((w as nat, cells@)) && cells@.len() == w * w
                && 21 <= w <= 177,
            Err(_) => qr_matrix(data@) is None,
        },
        data@.len() <= QR_SURE_BYTES ==> r is Ok,
{
    match qrcode::QrCode::new(data) {
        Ok(code) => Ok((
            code.width(),
            code.to_colors().into_iter().map(|c| c == qrcode::Color::Dark).collect(),
        )),
        Err(e) => Err(e),
    }
}

/// The SVG text `qrcode`'s own renderer draws for `data` at least `min`
/// pixels square, in the `dark` and `light` colours.
pub uninterp spec fn rendered_qr(data: Seq<u8>, min: u32, dark: Seq<char>, light: Seq<char>) -> Seq<char>;

/// Calls `QrCode::new`, then `render::<svg::Color>()` with
/// `min_dimensions(min, min)`, `dark_color`, `light_color` and `build`.
/// Claims the image is the named function of its arguments, and that it
/// fails exactly when `QrCode::new` does for `qr_encode`. `min_dimensions`
/// adds up to the code's width in `u32`, so `min` is kept well below the
/// overflow.
#[verifier::external_body]
fn render_qr(data: &[u8], min: u32, dark: &str, light: &str) -> (r: Result<String, qrcode::types::QrError>)
    requires
        min <= 1_000_000,
    ensures
        match r {
            Ok(s) => qr_matrix(data@) is Some && s@ == rendered_qr(data@, min, dark@, light@),
            Err(_) => qr_matrix(data@) is None,
        },
        data@.len() <= QR_SURE_BYTES ==> r is Ok,
{
    let code = qrcode::QrCode::new(data)?;
    Ok(code
        .render::<qrcode::render::svg::Color>()
        .min_dimensions(min, min)
        .dark_color(qrcode::render::svg::Color(dark))
        .light_color(qrcode::render::svg::Color(light))
        .build())
}

/// Why no QR could be drawn.
#[derive(Clone, Copy, Debug, PartialEq, Eq)]
pub enum SvgError {
    /// The URL is too long for any QR code.
    Unencodable,
}

/// `&`, `<` and `>` as entities, `&` first.
pub open spec fn xml_escape(s: Seq<char>) -> Seq<char> {
    replace_all(replace_all(replace_all(s, "&"@, "&amp;"@), "<"@, "&lt;"@), ">"@, "&gt;"@)
}

pub fn xml_escape_exec(raw: &str) -> (out: Vec<char>)
    ensures
        out@ == xml_escape(raw@),
{
    proof {
        reveal_strlit("&");
        reveal_strlit("<");
        reveal_strlit(">");
    }
    let s = chars_of(raw);
    let a = replace_exec(&s, &chars_of("&"), &chars_of("&amp;"));
    let b = replace_exec(&a, &chars_of("<"), &chars_of("&lt;"));
    replace_exec(&b, &chars_of(">"), &chars_of("&gt;"))
}

pub open spec fn head(width: nat, height: nat) -> Seq<char> {
    "<svg xmlns=\"http://www.w3.org/2000/svg\" width=\""@ + decimal(width) + "\" height=\""@ + decimal(height)
        + "\" viewBox=\"0 0 "@ + decimal(width) + " "@ + decimal(height) + "\">"@ + "<rect width=\""@
        + decimal(width) + "\" height=\""@ + decimal(height) + "\" rx=\"10\" fill=\"#ffffff\"/>"@
}

pub open spec fn module_rect(x: nat, y: nat, m: nat) -> Seq<char> {
    "<rect x=\""@ + decimal(x) + "\" y=\""@ + decimal(y) + "\" width=\""@ + decimal(m) + "\" height=\""@
        + decimal(m) + "\" fill=\"#000000\"/>"@
}

/// One square per dark module from index `i` on, placed past the quiet zone
/// and padding.
pub open spec fn rects(cells: Seq<bool>, w: nat, m: nat, i: int) -> Seq<char>
    decreases cells.len() - i,
{
    if i < 0 || i >= cells.len() || w == 0 {
        Seq::empty()
    } else {
        let here = if cells[i] {
            module_rect((((i % w as int) + QUIET) * m + PAD) as nat, (((i / w as int) + QUIET) * m + PAD) as nat, m)
        } else {
            Seq::empty()
        };
        here + rects(cells, w, m, i + 1)
    }
}

pub open spec fn tail(mid: nat, pin_y: nat, pin: Seq<char>, url: Seq<char>) -> Seq<char> {
    "<text x=\""@ + decimal(mid) + "\" y=\""@ + decimal(pin_y)
        + "\" text-anchor=\"middle\" font-family=\"monospace\" font-size=\"32\" font-weight=\"bold\" letter-spacing=\"6\" fill=\"#16181A\">"@
        + xml_escape(pin) + "</text>"@ + "<text x=\""@ + decimal(mid) + "\" y=\""@ + decimal(pin_y + 24)
        + "\" text-anchor=\"middle\" font-family=\"monospace\" font-size=\"12\" fill=\"#6E6C66\">"@
        + xml_escape(url) + "</text>"@ + "</svg>"@
}

/// The whole drawing for a `w`-module matrix at `m` pixels per module.
pub open spec fn svg_doc(url: Seq<char>, pin: Seq<char>, m: nat, w: nat, cells: Seq<bool>) -> Seq<char> {
    let qr_px: nat = ((w + 2 * QUIET) * m) as nat;
    let width: nat = (qr_px + 2 * PAD) as nat;
    let height: nat = (width + CAPTION) as nat;
    head(width, height) + rects(cells, w, m, 0) + tail(width / 2, (qr_px + PAD + 28) as nat, pin, url)
}

fn push_num(v: &mut Vec<char>, n: usize)
    ensures
        final(v)@ == old(v)@ + decimal(n as nat),
{
    push_decimal(v, n as u64);
}

/// The drawing for a given module matrix.
pub fn svg_from_matrix(url: &str, pin: &str, module: usize, w: usize, cells: &Vec<bool>) -> (out: String)
    requires
        w > 0,
        cells@.len() == w * w,
        (w + 2 * QUIET) * module + 2 * PAD + CAPTION <= usize::MAX,
    ensures
        out@ == svg_doc(url@, pin@, module as nat, w as nat, cells@),
{
    assert(cells.len() <= usize::MAX);
    assert(w + 8 <= usize::MAX) by (nonlinear_arith)
        requires w > 0, w * w <= usize::MAX, usize::MAX >= 0xffff_ffff;
    let qr_px = (w + 2 * QUIET) * module;
    let width = qr_px + 2 * PAD;
    let height = width + CAPTION;
    let mut v: Vec<char> = Vec::new();
    extend_str(&mut v, "<svg xmlns=\"http://www.w3.org/2000/svg\" width=\"");
    push_num(&mut v, width);
    extend_str(&mut v, "\" height=\"");
    push_num(&mut v, height);
    extend_str(&mut v, "\" viewBox=\"0 0 ");
    push_num(&mut v, width);
    extend_str(&mut v, " ");
    push_num(&mut v, height);
    extend_str(&mut v, "\">");
    extend_str(&mut v, "<rect width=\"");
    push_num(&mut v, width);
    extend_str(&mut v, "\" height=\"");
    push_num(&mut v, height);
    extend_str(&mut v, "\" rx=\"10\" fill=\"#ffffff\"/>");
    let ghost hd = v@;
    assert((w + 8) * module + 124 <= usize::MAX);
    assert(hd =~= head(width as nat, height as nat));
    let mut i: usize = 0;
    while i < cells.len()
        invariant
            w > 0,
            cells@.len() == w * w,
            (w + 8) * module + 124 <= usize::MAX,
            w + 8 <= usize::MAX,
            i <= cells.len(),
            hd + rects(cells@, w as nat, module as nat, 0) == v@ + rects(cells@, w as nat, module as nat, i as int),
        decreases cells.len() - i,
    {
        let ghost before = v@;
        if cells[i] {
            let col = i % w;
            let row = i / w;
            assert(col < w && row < w) by (nonlinear_arith)
                requires col == i % w, row == i / w, i < w * w, w > 0;
            assert((col + 4) * module <= (w + 8) * module) by (nonlinear_arith)
                requires col < w;
            assert((row + 4) * module <= (w + 8) * module) by (nonlinear_arith)
                requires row < w;
            let x = (col + 4) * module + 20;
            let y = (row + 4) * module + 20;
            extend_str(&mut v, "<rect x=\"");
            push_num(&mut v, x);
            extend_str(&mut v, "\" y=\"");
            push_num(&mut v, y);
            extend_str(&mut v, "\" width=\"");
            push_num(&mut v, module);
            extend_str(&mut v, "\" height=\"");
            push_num(&mut v, module);
            extend_str(&mut v, "\" fill=\"#000000\"/>");
            assert(v@ =~= before + module_rect(x as nat, y as nat, module as nat));
            assert(x as int == ((i as int % w as int) + QUIET) * module + PAD);
            assert(y as int == ((i as int / w as int) + QUIET) * module + PAD);
        }
        assert(before + rects(cells@, w as nat, module as nat, i as int) =~= v@ + rects(
            cells@,
            w as nat,
            module as nat,
            i + 1,
        ));
        i = i + 1;
    }
    assert(v@ =~= hd + rects(cells@, w as nat, module as nat, 0));
    let mid = width / 2;
    let pin_y = qr_px + PAD + 28;
    let ghost body = v@;
    extend_str(&mut v, "<text x=\"");
    push_num(&mut v, mid);
    extend_str(&mut v, "\" y=\"");
    push_num(&mut v, pin_y);
    extend_str(
        &mut v,
        "\" text-anchor=\"middle\" font-family=\"monospace\" font-size=\"32\" font-weight=\"bold\" letter-spacing=\"6\" fill=\"#16181A\">",
    );
    extend_chars(&mut v, &xml_escape_exec(pin));
    extend_str(&mut v, "</text>");
    extend_str(&mut v, "<text x=\"");
    push_num(&mut v, mid);
    extend_str(&mut v, "\" y=\"");
    push_num(&mut v, pin_y + 24);
    extend_str(&mut v, "\" text-anchor=\"middle\" font-family=\"monospace\" font-size=\"12\" fill=\"#6E6C66\">");
    extend_chars(&mut v, &xml_escape_exec(url));
    extend_str(&mut v, "</text>");
    extend_str(&mut v, "</svg>");
    assert(v@ =~= body + tail(mid as nat, pin_y as nat, pin@, url@));
    string_of(&v)
}

/// Draws the QR for `url` with `module` pixels per module, the PIN and URL
/// as its caption.
pub fn svg(url: &str, pin: &str, module: usize) -> (r: Result<String, SvgError>)
    requires
        (177 + 2 * QUIET) * module + 2 * PAD + CAPTION <= usize::MAX,
    ensures
        match r {
            Ok(s) => qr_matrix(vstd::utf8::encode_utf8(url@)) matches Some((w, cells)) && s@ == svg_doc(url@, pin@, module as nat, w, cells),
            Err(e) => e == SvgError::Unencodable && qr_matrix(vstd::utf8::encode_utf8(url@)) is None,
        },
        vstd::utf8::encode_utf8(url@).len() <= QR_SURE_BYTES ==> r is Ok,
{
    match qr_encode(url.as_bytes()) {
        Ok((w, cells)) => {
            assert((w + 2 * QUIET) * module <= (177 + 2 * QUIET) * module) by (nonlinear_arith)
                requires w <= 177;
            Ok(svg_from_matrix(url, pin, module, w, &cells))
        },
        Err(_) => Err(SvgError::Unencodable),
    }
}

/// The plain QR the indicator opens in an image viewer: `qrcode`'s own
/// rendering, black on white, at least 320 pixels square.
pub fn plain_svg(url: &str) -> (r: Result<String, SvgError>)
    ensures
        match r {
            Ok(s) => s@ == rendered_qr(vstd::utf8::encode_utf8(url@), 320, "#000000"@, "#ffffff"@),
            Err(e) => e == SvgError::Unencodable && qr_matrix(vstd::utf8::encode_utf8(url@)) is None,
        },
        vstd::utf8::encode_utf8(url@).len() <= QR_SURE_BYTES ==> r is Ok,
{
    match render_qr(url.as_bytes(), 320, "#000000", "#ffffff") {
        Ok(s) => Ok(s),
        Err(_) => Err(SvgError::Unencodable),
    }
}

/// The drawing is one `<svg>` element, whatever the matrix.
pub proof fn lemma_svg_is_one_element(url: Seq<char>, pin: Seq<char>, m: nat, w: nat, cells: Seq<bool>)
    ensures
        crate::text::starts_with(svg_doc(url, pin, m, w, cells), "<svg"@),
        crate::text::ends_with(svg_doc(url, pin, m, w, cells), "</svg>"@),
{
    reveal_strlit("<svg xmlns=\"http://www.w3.org/2000/svg\" width=\"");
    reveal_strlit("<svg");
    reveal_strlit("</svg>");
    let d = svg_doc(url, pin, m, w, cells);
    let qr_px: nat = ((w + 2 * QUIET) * m) as nat;
    let width: nat = (qr_px + 2 * PAD) as nat;
    let height: nat = (width + CAPTION) as nat;
    let h = head(width, height);
    let t = tail(width / 2, (qr_px + PAD + 28) as nat, pin, url);
    assert(d =~= h + rects(cells, w, m, 0) + t);
    assert(d.subrange(0, 4) =~= "<svg"@) by {
        assert(h.len() >= 4);
        assert forall|j: int| 0 <= j < 4 implies d[j] == "<svg"@[j] by {
            assert(d[j] == h[j]);
        }
    }
    let n = d.len();
    assert(t.len() >= 6);
    assert(d.subrange(n - 6, n as int) =~= "</svg>"@) by {
        assert forall|j: int| 0 <= j < 6 implies d[n - 6 + j] == "</svg>"@[j] by {
            assert(d[n - 6 + j] == t[t.len() - 6 + j]);
        }
    }
}

} // verus!
