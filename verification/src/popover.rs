//! Placement of the popover window under the tray icon.

use vstd::prelude::*;
use crate::text::{
    chars_of, contains, contains_exec, decimal, parse_int, parse_signed, parse_uint, parse_unsigned, split, split_exec,
    split_once, split_once_exec, string_of, views, words, words_exec,
};

verus! {

pub const WIDTH: u32 = 380;

pub const HEIGHT: u32 = 560;

/// Gap between the top of the monitor and the popover, below the panel.
pub const TOP_MARGIN: u32 = 42;

/// Gap between the popover and the right edge of the monitor.
pub const RIGHT_MARGIN: u32 = 14;

/// `WxH+X+Y` as `xrandr` prints a monitor's geometry: width and height as
/// `u32`, offsets as `i32`.
pub open spec fn geometry(raw: Seq<char>) -> Option<(u32, u32, i32, i32)> {
    match split_once(raw, '+') {
        None => None,
        Some((size, rest)) => match split_once(size, 'x') {
            None => None,
            Some((w, h)) => match split_once(rest, '+') {
                None => None,
                Some((x, y)) => match (
                    parse_unsigned(w, u32::MAX as nat),
                    parse_unsigned(h, u32::MAX as nat),
                    parse_signed(x, i32::MIN as int, i32::MAX as int),
                    parse_signed(y, i32::MIN as int, i32::MAX as int),
                ) {
                    (Some(a), Some(b), Some(c), Some(d)) => Some((a as u32, b as u32, c as i32, d as i32)),
                    _ => None,
                },
            },
        },
    }
}

/// `1920x1200+0+0` -> `(1920, 1200, 0, 0)`.
pub fn parse_geometry(raw: &str) -> (r: Option<(u32, u32, i32, i32)>)
    ensures
        r == geometry(raw@),
{
    let rc = chars_of(raw);
    let (size, rest) = match split_once_exec(&rc, '+') {
        None => return None,
        Some(p) => p,
    };
    let (w, h) = match split_once_exec(&size, 'x') {
        None => return None,
        Some(p) => p,
    };
    let (x, y) = match split_once_exec(&rest, '+') {
        None => return None,
        Some(p) => p,
    };
    let w = parse_uint(&w, u32::MAX as u64);
    let h = parse_uint(&h, u32::MAX as u64);
    let x = parse_int(&x, i32::MIN as i64, i32::MAX as i64);
    let y = parse_int(&y, i32::MIN as i64, i32::MAX as i64);
    match (w, h, x, y) {
        (Some(a), Some(b), Some(c), Some(d)) => Some((a as u32, b as u32, c as i32, d as i32)),
        _ => None,
    }
}

/// A signed number as Rust prints it: `-` before the digits of a negative.
pub open spec fn signed_text(v: int) -> Seq<char> {
    if v < 0 { seq!['-'] + decimal((-v) as nat) } else { decimal(v as nat) }
}

/// `{w}x{h}+{x}+{y}`, the geometry as `xrandr` prints it.
pub open spec fn geometry_text(w: nat, h: nat, x: int, y: int) -> Seq<char> {
    decimal(w) + "x"@ + decimal(h) + "+"@ + signed_text(x) + "+"@ + signed_text(y)
}

proof fn lemma_no_char(s: Seq<char>, c: char)
    requires
        crate::text::all_digits(s),
        !crate::text::is_digit(c),
    ensures
        forall|j: int| 0 <= j < s.len() ==> s[j] != c,
{
}

proof fn lemma_split_once_at(s: Seq<char>, c: char, a: Seq<char>, b: Seq<char>)
    requires
        s == a + seq![c] + b,
        forall|j: int| 0 <= j < a.len() ==> a[j] != c,
    ensures
        split_once(s, c) == Some((a, b)),
{
    crate::text::lemma_find_char_from(s, c, 0);
    assert(s[a.len() as int] == c);
    match crate::text::find_from(s, seq![c], 0) {
        Some(i) => {
            if i < a.len() {
                assert(s[i] == a[i]);
            }
            assert(i == a.len());
            assert(s.take(i) =~= a);
            assert(s.skip(i + 1) =~= b);
        },
        None => {
            assert(s[a.len() as int] != c);
        },
    }
}

proof fn lemma_signed_decimal(v: int, min: int, max: int)
    requires
        min <= v <= max,
    ensures
        parse_signed(signed_text(v), min, max) == Some(v),
        forall|j: int| 0 <= j < signed_text(v).len() ==> signed_text(v)[j] != '+' && signed_text(v)[j] != 'x',
{
    let n: nat = if v < 0 { (-v) as nat } else { v as nat };
    crate::text::lemma_decimal_digits(n);
    assert(crate::text::is_digit(decimal(n)[0]));
    let t = signed_text(v);
    if v < 0 {
        assert(t.drop_first() =~= decimal(n));
        assert forall|j: int| 0 <= j < t.len() implies t[j] != '+' && t[j] != 'x' by {
            if j > 0 {
                assert(t[j] == decimal(n)[j - 1]);
                assert(crate::text::is_digit(decimal(n)[j - 1]));
            }
        }
    } else {
        assert forall|j: int| 0 <= j < t.len() implies t[j] != '+' && t[j] != 'x' by {
            assert(crate::text::is_digit(t[j]));
        }
    }
}

/// What `xrandr` prints parses back to the same geometry, whatever the
/// sign of the offsets.
pub proof fn lemma_geometry_round_trip(w: u32, h: u32, x: i32, y: i32)
    ensures
        geometry(geometry_text(w as nat, h as nat, x as int, y as int)) == Some((w, h, x, y)),
{
    reveal_strlit("x");
    reveal_strlit("+");
    let dw = decimal(w as nat);
    let dh = decimal(h as nat);
    let dx = signed_text(x as int);
    let dy = signed_text(y as int);
    crate::text::lemma_decimal_digits(w as nat);
    crate::text::lemma_decimal_digits(h as nat);
    lemma_signed_decimal(x as int, i32::MIN as int, i32::MAX as int);
    lemma_signed_decimal(y as int, i32::MIN as int, i32::MAX as int);
    lemma_no_char(dw, '+');
    lemma_no_char(dh, '+');
    lemma_no_char(dw, 'x');
    let size = dw + seq!['x'] + dh;
    let rest = dx + seq!['+'] + dy;
    let t = geometry_text(w as nat, h as nat, x as int, y as int);
    assert(t =~= size + seq!['+'] + rest);
    assert forall|j: int| 0 <= j < size.len() implies size[j] != '+' by {
        if j < dw.len() {
            assert(size[j] == dw[j]);
        } else if j > dw.len() {
            assert(size[j] == dh[j - dw.len() - 1]);
        }
    }
    lemma_split_once_at(t, '+', size, rest);
    lemma_split_once_at(size, 'x', dw, dh);
    lemma_split_once_at(rest, '+', dx, dy);
    crate::text::lemma_parse_decimal(w as nat, u32::MAX as nat);
    crate::text::lemma_parse_decimal(h as nat, u32::MAX as nat);
}

/// `v` wrapped into `i32` (two's complement), as the release build's `i32`
/// arithmetic wraps.
pub open spec fn wrap_i32(v: int) -> i32 {
    let m = v % 0x1_0000_0000;
    if m > i32::MAX { (m - 0x1_0000_0000) as i32 } else { m as i32 }
}

/// Wrapping moves a value at most one turn of 2^32 into `i32`, and leaves
/// one already in range alone.
proof fn lemma_wrap_i32(v: int)
    requires
        i32::MIN - 0x1_0000_0000 <= v <= i32::MAX + 0x1_0000_0000,
    ensures
        wrap_i32(v) as int == if v > i32::MAX {
            v - 0x1_0000_0000
        } else if v < i32::MIN {
            v + 0x1_0000_0000
        } else {
            v
        },
{
    let d: int = 0x1_0000_0000;
    if v >= d {
        vstd::arithmetic::div_mod::lemma_fundamental_div_mod_converse(v, d, 1, v - d);
    } else if v >= 0 {
        vstd::arithmetic::div_mod::lemma_fundamental_div_mod_converse(v, d, 0, v);
    } else if v >= -d {
        vstd::arithmetic::div_mod::lemma_fundamental_div_mod_converse(v, d, -1, v + d);
    } else {
        vstd::arithmetic::div_mod::lemma_fundamental_div_mod_converse(v, d, -2, v + 2 * d);
    }
}

/// The popover hangs from the monitor whose geometry `WxH+X+Y` was found:
/// its top edge is `TOP_MARGIN` below the monitor's top `Y`, and its right
/// edge `RIGHT_MARGIN` in from the monitor's right edge `X + W`, as `i32`
/// arithmetic gives them (exactly, whenever the value fits in `i32`).
pub proof fn lemma_corner_under_monitor(text: Seq<char>, l: Seq<char>, k: int, w: u32, h: u32, x: i32, y: i32)
    requires
        monitor_line(text) == Some(l),
        first_geometry_word(words(l), 0) == Some(k),
        geometry(words(l)[k]) == Some((w, h, x, y)),
    ensures
        corner_for(text).1 as int == if y as int + TOP_MARGIN as int > i32::MAX {
            y as int + TOP_MARGIN as int - 0x1_0000_0000
        } else {
            y as int + TOP_MARGIN as int
        },
        corner_for(text).0 as int + WIDTH as int + RIGHT_MARGIN as int == if x as int + w as int - WIDTH as int
            - RIGHT_MARGIN as int > i32::MAX {
            x as int + w as int - 0x1_0000_0000
        } else if (x as int + w as int - WIDTH as int - RIGHT_MARGIN as int) < i32::MIN {
            x as int + w as int + 0x1_0000_0000
        } else {
            x as int + w as int
        },
        y as int + TOP_MARGIN as int <= i32::MAX ==> corner_for(text).1 as int == y as int + TOP_MARGIN as int,
{
    lemma_wrap_i32(y as int + TOP_MARGIN as int);
    lemma_wrap_i32(x as int + w as int - WIDTH as int - RIGHT_MARGIN as int);
}

/// With no monitor geometry in the output, the popover goes to the fixed
/// spot `(900, TOP_MARGIN)`.
pub proof fn lemma_corner_without_monitor(text: Seq<char>)
    requires
        match monitor_line(text) {
            Some(l) => match first_geometry_word(words(l), 0) {
                Some(k) => geometry(words(l)[k]) is None,
                None => true,
            },
            None => true,
        },
    ensures
        corner_for(text) == (900i32, 42i32),
{
}

/// The first position from `p` whose line contains `pat`.
pub open spec fn first_line_with(ls: Seq<Seq<char>>, pat: Seq<char>, p: int) -> Option<int>
    decreases ls.len() - p,
{
    if p < 0 || p >= ls.len() {
        None
    } else if contains(ls[p], pat) {
        Some(p)
    } else {
        first_line_with(ls, pat, p + 1)
    }
}

/// The first word from `p` that contains both `x` and `+`.
pub open spec fn first_geometry_word(ws: Seq<Seq<char>>, p: int) -> Option<int>
    decreases ws.len() - p,
{
    if p < 0 || p >= ws.len() {
        None
    } else if ws[p].contains('x') && ws[p].contains('+') {
        Some(p)
    } else {
        first_geometry_word(ws, p + 1)
    }
}

/// The monitor line of `xrandr`'s output: the first connected primary one,
/// or else the first connected one.
pub open spec fn monitor_line(text: Seq<char>) -> Option<Seq<char>> {
    let ls = split(text, '\n');
    match first_line_with(ls, " connected primary"@, 0) {
        Some(p) => Some(ls[p]),
        None => match first_line_with(ls, " connected"@, 0) {
            Some(p) => Some(ls[p]),
            None => None,
        },
    }
}

/// Where the popover goes for this `xrandr` output: its top-right corner
/// sits `RIGHT_MARGIN` in from the monitor's right edge and `TOP_MARGIN`
/// below its top; `(900, TOP_MARGIN)` when no monitor geometry is found.
pub open spec fn corner_for(text: Seq<char>) -> (i32, i32) {
    let geom = match monitor_line(text) {
        Some(l) => match first_geometry_word(words(l), 0) {
            Some(k) => geometry(words(l)[k]),
            None => None,
        },
        None => None,
    };
    match geom {
        Some((w, _h, x, y)) => (
            wrap_i32(x + w - WIDTH - RIGHT_MARGIN),
            wrap_i32(y + TOP_MARGIN),
        ),
        None => (900, TOP_MARGIN as i32),
    }
}

fn first_line_exec(ls: &Vec<Vec<char>>, pat: &Vec<char>) -> (r: Option<usize>)
    ensures
        match r {
            Some(p) => first_line_with(views(ls@), pat@, 0) == Some(p as int) && p < ls@.len(),
            None => first_line_with(views(ls@), pat@, 0) is None,
        },
{
    let mut p: usize = 0;
    while p < ls.len()
        invariant
            p <= ls.len(),
            first_line_with(views(ls@), pat@, 0) == first_line_with(views(ls@), pat@, p as int),
        decreases ls.len() - p,
    {
        assert(views(ls@)[p as int] == ls@[p as int]@);
        if contains_exec(&ls[p], pat) {
            return Some(p);
        }
        p = p + 1;
    }
    None
}

fn has_char(w: &Vec<char>, c: char) -> (r: bool)
    ensures
        r == w@.contains(c),
{
    let mut i: usize = 0;
    while i < w.len()
        invariant
            i <= w.len(),
            forall|j: int| 0 <= j < i ==> w@[j] != c,
        decreases w.len() - i,
    {
        if w[i] == c {
            return true;
        }
        i = i + 1;
    }
    false
}

fn first_geometry_exec(ws: &Vec<Vec<char>>) -> (r: Option<usize>)
    ensures
        match r {
            Some(p) => first_geometry_word(views(ws@), 0) == Some(p as int) && p < ws@.len(),
            None => first_geometry_word(views(ws@), 0) is None,
        },
{
    let mut p: usize = 0;
    while p < ws.len()
        invariant
            p <= ws.len(),
            first_geometry_word(views(ws@), 0) == first_geometry_word(views(ws@), p as int),
        decreases ws.len() - p,
    {
        assert(views(ws@)[p as int] == ws@[p as int]@);
        if has_char(&ws[p], 'x') && has_char(&ws[p], '+') {
            return Some(p);
        }
        p = p + 1;
    }
    None
}

fn wrap_exec(v: i64) -> (r: i32)
    ensures
        r == wrap_i32(v as int),
{
    let m0: i64 = v % 0x1_0000_0000;
    let m: i64 = if m0 < 0 { m0 + 0x1_0000_0000 } else { m0 };
    assert(m == (v as int) % 0x1_0000_0000);
    if m > i32::MAX as i64 {
        (m - 0x1_0000_0000) as i32
    } else {
        m as i32
    }
}

/// Top-right of the primary monitor in `xrandr`'s output, just under the
/// panel.
pub fn corner(xrandr: &str) -> (r: (i32, i32))
    ensures
        r == corner_for(xrandr@),
{
    proof {
        reveal_strlit(" connected primary");
        reveal_strlit(" connected");
    }
    let text = chars_of(xrandr);
    let ls = split_exec(&text, '\n');
    let primary = chars_of(" connected primary");
    let connected = chars_of(" connected");
    let line = match first_line_exec(&ls, &primary) {
        Some(p) => Some(p),
        None => first_line_exec(&ls, &connected),
    };
    let geom = match line {
        Some(p) => {
            assert(views(ls@)[p as int] == ls@[p as int]@);
            let ws = words_exec(&ls[p]);
            match first_geometry_exec(&ws) {
                Some(k) => {
                    assert(views(ws@)[k as int] == ws@[k as int]@);
                    let wk = string_of(&ws[k]);
                    parse_geometry(wk.as_str())
                },
                None => None,
            }
        },
        None => None,
    };
    match geom {
        Some((w, _h, x, y)) => (
            wrap_exec(x as i64 + w as i64 - WIDTH as i64 - RIGHT_MARGIN as i64),
            wrap_exec(y as i64 + TOP_MARGIN as i64),
        ),
        None => (900, TOP_MARGIN as i32),
    }
}

} // verus!
