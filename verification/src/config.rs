//! Configuration shared by the daemon, the tray and the CLI, and the
//! secrets it is created with.

use vstd::prelude::*;
use crate::crypto::{hex_encode, hex_lower, random_bytes};
use crate::text::{
    all_digits, chars_of, decimal, extend_chars, extend_str, lemma_decimal_digits, push_decimal, split,
    split_exec, string_of, trim_both, trimmed, views, zero_padded, Trim,
};

verus! {

pub const SERVICE_TYPE: &'static str = "_mydrop._tcp.local.";

pub const DEFAULT_PORT: u16 = 8420;

/// Session cookie name.
pub const COOKIE: &'static str = "drop_session";

/// Session cookie lifetime: twelve hours.
pub const SESSION_SECS: u64 = 43200;

/// `n` random bytes in lower-case hex; `None` when the system RNG fails.
pub fn random_hex(n: usize) -> (out: Option<String>)
    ensures
        out matches Some(h) ==> exists|b: Seq<u8>| b.len() == n && h@ == #[trigger] hex_lower(b),
{
    match random_bytes(n) {
        Some(bytes) => Some(hex_encode(bytes.as_slice())),
        None => None,
    }
}

/// Everything the daemon, the tray and the CLI share, as stored on disk.
#[derive(Clone, Debug)]
pub struct Config {
    /// Six digits. Guards every route, not just uploads.
    pub pin: String,
    pub port: u16,
    /// Where incoming files land.
    pub dir: String,
    /// Advertised device name.
    pub name: String,
    /// Move each file to `move_target` once it finishes, clearing `dir`.
    pub auto_move: bool,
    pub move_target: String,
    /// Expose over a Cloudflare tunnel. Off by default: it puts this on the
    /// public internet, where the PIN is the only thing standing in the way.
    pub tunnel: bool,
    /// Hold incoming files until they are accepted, instead of writing
    /// straight into `dir`.
    pub require_approval: bool,
    /// HMAC key for session cookies. Regenerating it logs everyone out.
    pub secret: String,
}

/// `http://{ip}:{port}`.
pub open spec fn url_for(ip: Seq<char>, port: u16) -> Seq<char> {
    "http://"@ + ip + ":"@ + decimal(port as nat)
}

/// `http://{ip}:{port}` for an address and port.
pub fn http_url(ip: &str, port: u16) -> (out: String)
    ensures
        out@ == url_for(ip@, port),
{
    let mut v: Vec<char> = Vec::new();
    extend_str(&mut v, "http://");
    extend_str(&mut v, ip);
    extend_str(&mut v, ":");
    push_decimal(&mut v, port as u64);
    string_of(&v)
}

impl Config {
    /// The address phones on this network use, given this machine's LAN IP.
    pub fn local_url(&self, lan_ip: &str) -> (out: String)
        ensures
            out@ == url_for(lan_ip@, self.port),
    {
        http_url(lan_ip, self.port)
    }

    /// Where incoming files go once accepted: `move_target` when auto-move is
    /// on, else the Drop folder.
    pub fn landing_dir(&self) -> (out: String)
        ensures
            out@ == if self.auto_move { self.move_target@ } else { self.dir@ },
    {
        if self.auto_move {
            self.move_target.clone()
        } else {
            self.dir.clone()
        }
    }
}

/// A first-run configuration: a fresh PIN and signing key, the Drop folder
/// under `home` (`.` when there is none), moves going to `downloads` or else
/// `home/Downloads`, and every switch at its default. `None` when the system
/// RNG fails.
pub fn fresh_config(home: Option<&str>, downloads: Option<&str>, name: String) -> (r: Option<Config>)
    ensures
        r matches Some(c) ==> ({
            let h = match home {
                Some(x) => x@,
                None => "."@,
            };
            &&& c.port == DEFAULT_PORT
            &&& c.dir@ == crate::net::join(h, "Drop"@)
            &&& c.name@ == name@
            &&& !c.auto_move
            &&& c.move_target@ == match downloads {
                Some(d) => d@,
                None => crate::net::join(h, "Downloads"@),
            }
            &&& !c.tunnel
            &&& c.require_approval
            &&& exists|b: Seq<u8>| b.len() == 4 && c.pin@ == #[trigger] zero_padded(le_u32(b) % 1000000, 6)
            &&& exists|b: Seq<u8>| b.len() == 32 && c.secret@ == #[trigger] hex_lower(b)
        }),
{
    let h = match home {
        Some(x) => chars_of(x),
        None => chars_of("."),
    };
    let dir = string_of(&crate::net::join_exec(&h, &chars_of("Drop")));
    let move_target = match downloads {
        Some(d) => d.to_owned(),
        None => string_of(&crate::net::join_exec(&h, &chars_of("Downloads"))),
    };
    let pin = match random_pin() {
        Some(p) => p,
        None => return None,
    };
    let secret = match random_hex(32) {
        Some(s) => s,
        None => return None,
    };
    Some(Config {
        pin,
        port: DEFAULT_PORT,
        dir,
        name,
        auto_move: false,
        move_target,
        tunnel: false,
        require_approval: true,
        secret,
    })
}

/// The device name from the contents of `/etc/hostname`: the part before the
/// first `.`, trimmed, or `drop` when that is empty or the file is unreadable.
pub open spec fn hostname_of(contents: Option<Seq<char>>) -> Seq<char> {
    match contents {
        Some(c) if trim_both(split(c, '.')[0], Trim::Space).len() > 0 => trim_both(split(c, '.')[0], Trim::Space),
        _ => "drop"@,
    }
}

pub fn hostname_from(contents: Option<&str>) -> (out: String)
    ensures
        out@ == hostname_of(match contents {
            Some(c) => Some(c@),
            None => None,
        }),
{
    if let Some(c) = contents {
        let cc = chars_of(c);
        let pieces = split_exec(&cc, '.');
        proof {
            crate::text::lemma_split_nonempty(cc@, '.', 0);
        }
        assert(views(pieces@)[0] == pieces@[0]@);
        let t = trimmed(&pieces[0], Trim::Space);
        if t.len() > 0 {
            return string_of(&t);
        }
    }
    let mut v: Vec<char> = Vec::new();
    extend_str(&mut v, "drop");
    string_of(&v)
}

/// The number four bytes spell, least significant first (`u32::from_le_bytes`).
pub open spec fn le_u32(b: Seq<u8>) -> nat {
    b[0] as nat + 256 * b[1] as nat + 65536 * b[2] as nat + 16777216 * b[3] as nat
}

/// The PIN four random bytes give: their little-endian value modulo a
/// million, zero-padded to six digits.
pub fn pin_from_bytes(b: &Vec<u8>) -> (pin: String)
    requires
        b.len() == 4,
    ensures
        pin@ == zero_padded(le_u32(b@) % 1000000, 6),
{
    let v: u32 = b[0] as u32 + 256 * b[1] as u32 + 65536 * b[2] as u32 + 16777216 * b[3] as u32;
    let n: u32 = v % 1000000;
    let mut digits: Vec<char> = Vec::new();
    push_decimal(&mut digits, n as u64);
    let mut out: Vec<char> = Vec::new();
    let mut k: usize = digits.len();
    while k < 6
        invariant
            digits.len() <= k <= 6 || (k == digits.len() && k >= 6),
            out@ == Seq::new((k - digits.len()) as nat, |i: int| '0'),
        decreases 6 - k,
    {
        out.push('0');
        k = k + 1;
        assert(out@ =~= Seq::new((k - digits.len()) as nat, |i: int| '0'));
    }
    extend_chars(&mut out, &digits);
    assert(out@ =~= zero_padded(le_u32(b@) % 1000000, 6));
    string_of(&out)
}

/// A fresh six-digit PIN from the system RNG; `None` when it fails.
pub fn random_pin() -> (pin: Option<String>)
    ensures
        pin matches Some(p) ==> exists|b: Seq<u8>| b.len() == 4 && p@ == #[trigger] zero_padded(le_u32(b) % 1000000, 6),
{
    match random_bytes(4) {
        Some(b) => Some(pin_from_bytes(&b)),
        None => None,
    }
}

proof fn lemma_decimal_len(n: nat, k: nat, p: nat)
    requires
        k >= 1,
        n < p,
        p == pow10(k),
    ensures
        decimal(n).len() <= k,
    decreases k,
{
    let q = pow10((k - 1) as nat);
    assert(p == 10 * q);
    if k == 1 {
        assert(q == 1);
    }
    if n >= 10 && k > 1 {
        assert(n / 10 < q) by (nonlinear_arith)
            requires n < 10 * q;
        lemma_decimal_len(n / 10, (k - 1) as nat, q);
    }
}

pub open spec fn pow10(k: nat) -> nat
    decreases k,
{
    if k == 0 { 1 } else { 10 * pow10((k - 1) as nat) }
}

/// Every PIN is exactly six decimal digits.
pub proof fn lemma_pin_is_six_digits(n: nat)
    requires
        n < 1000000,
    ensures
        zero_padded(n, 6).len() == 6,
        all_digits(zero_padded(n, 6)),
{
    reveal_with_fuel(pow10, 7);
    lemma_decimal_len(n, 6, 1000000);
    lemma_decimal_digits(n);
    let z = zero_padded(n, 6);
    assert forall|j: int| 0 <= j < z.len() implies crate::text::is_digit(#[trigger] z[j]) by {
        if decimal(n).len() < 6 && j < 6 - decimal(n).len() {
            assert(z[j] == '0');
        } else if decimal(n).len() < 6 {
            assert(z[j] == decimal(n)[j - (6 - decimal(n).len())]);
        }
    }
}

} // verus!
