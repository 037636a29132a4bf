//! PIN auth: signed session tokens plus per-address throttling.
//!
//! A token is `<expiry>.<hmac>`: the expiry in decimal seconds since the epoch,
//! a dot, and the lower-case hex HMAC-SHA256 of the expiry's decimal text under
//! the secret. It is stateless, so restarting the daemon keeps sessions alive as
//! long as the secret survives.

use vstd::prelude::*;
use vstd::utf8::*;
use crate::table::Table;
use crate::crypto::{hex_encode, hex_lower, hmac_sha256, hmac_sha256_tag, lemma_hex_len};
use crate::text::{
    all_digits, chars_of, decimal, extend_str, find, find_exec, find_from, is_digit,
    lemma_decimal_digits, lemma_find_from_bounds, lemma_parse_decimal, matches_at, parse_uint, parse_unsigned,
    push_decimal, slice_chars, string_of, trim_both, trimmed, Trim,
};

verus! {

broadcast use {vstd::utf8::encode_utf8_decode_utf8, vstd::utf8::is_ascii_chars_encode_utf8};

/// Failed PINs an address may enter before it is locked out.
pub const MAX_STRIKES: u32 = 5;

/// The first lockout, in seconds.
pub const BASE_LOCKOUT: u64 = 30;

/// The longest lockout, in seconds.
pub const MAX_LOCKOUT: u64 = 900;

/// Seconds since the Unix epoch from the system clock (`SystemTime::now`),
/// or 0 when the clock reads before the epoch. Nothing is claimed of the value.
#[verifier::external_body]
pub fn now() -> u64 {
    std::time::SystemTime::now()
        .duration_since(std::time::UNIX_EPOCH)
        .map(|d| d.as_secs())
        .unwrap_or(0)
}

/// The signature over `expiry`: hex HMAC-SHA256 of its decimal text, keyed by
/// the secret's UTF-8 bytes.
pub open spec fn signature(secret: Seq<char>, expiry: nat) -> Seq<char> {
    hex_lower(hmac_sha256_tag(encode_utf8(secret), encode_utf8(decimal(expiry))))
}

/// The token that expires at `expiry`.
pub open spec fn token(secret: Seq<char>, expiry: nat) -> Seq<char> {
    decimal(expiry) + seq!['.'] + signature(secret, expiry)
}

/// Whether `tok` is accepted at time `now`: it splits at its first `.` into a
/// `u64` expiry no earlier than `now` and the signature over that expiry.
pub open spec fn token_valid(secret: Seq<char>, tok: Seq<char>, now: nat) -> bool {
    match find(tok, seq!['.']) {
        None => false,
        Some(i) => match parse_unsigned(tok.take(i), u64::MAX as nat) {
            None => false,
            Some(expiry) => now <= expiry && signature(secret, expiry) == tok.skip(i + 1),
        },
    }
}

/// The expiry a token names, if its part before the first `.` is a `u64`.
pub open spec fn token_expiry(tok: Seq<char>) -> Option<nat> {
    match find(tok, seq!['.']) {
        None => None,
        Some(i) => parse_unsigned(tok.take(i), u64::MAX as nat),
    }
}

/// Compares two strings byte by byte without stopping at the first mismatch.
pub fn constant_eq(a: &str, b: &str) -> (r: bool)
    ensures
        r == (a@ == b@),
{
    let x = a.as_bytes();
    let y = b.as_bytes();
    if x.len() != y.len() {
        proof {
            if a@ == b@ {
                assert(x@ == y@);
            }
        }
        return false;
    }
    let mut acc: u8 = 0;
    let mut i: usize = 0;
    while i < x.len()
        invariant
            x.len() == y.len(),
            i <= x.len(),
            (acc == 0) == (forall|j: int| 0 <= j < i ==> x@[j] == y@[j]),
        decreases x.len() - i,
    {
        let p = x[i];
        let q = y[i];
        let old_acc = acc;
        acc = acc | (p ^ q);
        assert((old_acc | (p ^ q)) == 0 <==> (old_acc == 0 && p == q)) by (bit_vector);
        proof {
            if acc == 0 {
                assert forall|j: int| 0 <= j < i + 1 implies x@[j] == y@[j] by {}
            } else {
                if old_acc != 0 {
                    let j = choose|j: int| 0 <= j < i && x@[j] != y@[j];
                    assert(0 <= j < i + 1 && x@[j] != y@[j]);
                } else {
                    assert(x@[i as int] != y@[i as int]);
                }
            }
        }
        i = i + 1;
    }
    proof {
        if acc == 0 {
            assert(x@ =~= y@);
            assert(decode_utf8(encode_utf8(a@)) == a@);
            assert(decode_utf8(encode_utf8(b@)) == b@);
        } else {
            let j = choose|j: int| 0 <= j < x.len() && x@[j] != y@[j];
            assert(x@ != y@);
        }
    }
    acc == 0
}

/// The UTF-8 bytes of the decimal spelling of `n`.
fn decimal_bytes(n: u64) -> (out: Vec<u8>)
    ensures
        out@ == encode_utf8(decimal(n as nat)),
{
    let mut digits: Vec<char> = Vec::new();
    push_decimal(&mut digits, n);
    assert(digits@ =~= decimal(n as nat));
    proof {
        lemma_decimal_all_digits(n as nat);
    }
    let mut out: Vec<u8> = Vec::new();
    let mut i: usize = 0;
    while i < digits.len()
        invariant
            i <= digits.len(),
            digits@ == decimal(n as nat),
            all_digits(digits@),
            out@.len() == i,
            forall|j: int| 0 <= j < i ==> out@[j] == digits@[j] as u8,
        decreases digits.len() - i,
    {
        let c = digits[i];
        assert(is_digit(c));
        out.push(c as u8);
        i = i + 1;
    }
    proof {
        lemma_decimal_all_digits(n as nat);
        assert(is_ascii_chars(digits@));
        assert(out@ =~= encode_utf8(digits@));
    }
    out
}

/// Signs `expiry` with `secret`.
fn sign(secret: &str, expiry: u64) -> (sig: String)
    ensures
        sig@ == signature(secret@, expiry as nat),
        sig@.len() == 64,
        crate::crypto::is_lower_hex(sig@),
{
    let key = secret.as_bytes();
    let msg = decimal_bytes(expiry);
    let tag = hmac_sha256(key, msg.as_slice());
    proof {
        lemma_hex_len(tag@);
        crate::crypto::lemma_hex_chars(tag@);
    }
    hex_encode(tag.as_slice())
}

/// The token for `secret` that expires at `expiry`.
pub fn token_for(secret: &str, expiry: u64) -> (out: String)
    ensures
        out@ == token(secret@, expiry as nat),
        signature(secret@, expiry as nat).len() == 64,
        crate::crypto::is_lower_hex(signature(secret@, expiry as nat)),
{
    let mut v: Vec<char> = Vec::new();
    push_decimal(&mut v, expiry);
    v.push('.');
    let sig = sign(secret, expiry);
    extend_str(&mut v, sig.as_str());
    assert(v@ =~= token(secret@, expiry as nat));
    string_of(&v)
}

/// A token issued at `now` that lives `ttl` seconds.
pub fn issue_at(secret: &str, ttl: u64, now: u64) -> (out: String)
    requires
        now + ttl <= u64::MAX,
    ensures
        out@ == token(secret@, (now + ttl) as nat),
        signature(secret@, (now + ttl) as nat).len() == 64,
        crate::crypto::is_lower_hex(signature(secret@, (now + ttl) as nat)),
{
    token_for(secret, now + ttl)
}

/// A token that lives `ttl` seconds from the current time. An expiry past
/// `u64::MAX` is clamped there.
pub fn issue(secret: &str, ttl: u64) -> (out: String)
    ensures
        exists|t: u64|
            out@ == token(secret@, #[trigger] clamped_expiry(t, ttl)) && signature(secret@, clamped_expiry(t, ttl)).len()
                == 64 && crate::crypto::is_lower_hex(signature(secret@, clamped_expiry(t, ttl))),
{
    let t = now();
    let out = if ttl <= u64::MAX - t {
        issue_at(secret, ttl, t)
    } else {
        token_for(secret, u64::MAX)
    };
    assert(out@ == token(secret@, clamped_expiry(t, ttl)));
    out
}

/// `now + ttl`, clamped to `u64::MAX`.
pub open spec fn clamped_expiry(now: u64, ttl: u64) -> nat {
    if now + ttl <= u64::MAX {
        (now + ttl) as nat
    } else {
        u64::MAX as nat
    }
}

/// Whether `tok` is a token for `secret` that has not expired at `now`.
pub fn verify_at(secret: &str, tok: &str, now: u64) -> (r: bool)
    ensures
        r == token_valid(secret@, tok@, now as nat),
        r ==> (token_expiry(tok@) matches Some(e) && now <= e),
{
    let chars = chars_of(tok);
    let dot = vec!['.'];
    assert(dot@ =~= seq!['.']);
    let split = find_exec(&chars, &dot);
    let i = match split {
        None => return false,
        Some(i) => i,
    };
    proof {
        lemma_find_from_bounds(chars@, dot@, 0);
    }
    let head = slice_chars(&chars, 0, i);
    assert(head@ =~= tok@.take(i as int));
    let expiry = match parse_uint(&head, u64::MAX) {
        None => return false,
        Some(e) => e,
    };
    if expiry < now {
        return false;
    }
    let rest = slice_chars(&chars, i + 1, chars.len());
    assert(rest@ =~= tok@.skip(i + 1));
    let given = string_of(&rest);
    let expected = sign(secret, expiry);
    constant_eq(expected.as_str(), given.as_str())
}

/// Whether `tok` is a token for `secret` that has not yet expired.
pub fn verify(secret: &str, tok: &str) -> (r: bool)
    ensures
        exists|t: u64| r == #[trigger] token_valid(secret@, tok@, t as nat),
{
    let t = now();
    let r = verify_at(secret, tok, t);
    assert(r == token_valid(secret@, tok@, t as nat));
    r
}

proof fn lemma_decimal_all_digits(n: nat)
    ensures
        all_digits(decimal(n)),
        decimal(n).len() > 0,
{
    lemma_decimal_digits(n);
}

proof fn lemma_find_first_char(s: Seq<char>, c: char, start: int, k: int)
    requires
        0 <= start <= k < s.len(),
        s[k] == c,
        forall|j: int| start <= j < k ==> s[j] != c,
    ensures
        find_from(s, seq![c], start) == Some(k),
    decreases k - start,
{
    if start == k {
        assert(s.subrange(k, k + 1) =~= seq![c]);
    } else {
        assert(s.subrange(start, start + 1)[0] != c);
        assert(!matches_at(s, seq![c], start));
        lemma_find_first_char(s, c, start + 1, k);
    }
}

/// A token issued for an expiry is accepted under the same secret at any time
/// up to and including that expiry.
pub proof fn lemma_issued_token_verifies(secret: Seq<char>, expiry: nat, now: nat)
    requires
        expiry <= u64::MAX,
        now <= expiry,
    ensures
        token_valid(secret, token(secret, expiry), now),
        token_expiry(token(secret, expiry)) == Some(expiry),
{
    let d = decimal(expiry);
    let t = token(secret, expiry);
    lemma_decimal_all_digits(expiry);
    assert forall|j: int| 0 <= j < d.len() implies t[j] != '.' by {
        assert(t[j] == d[j]);
        assert(is_digit(d[j]));
    }
    assert(t[d.len() as int] == '.');
    lemma_find_first_char(t, '.', 0, d.len() as int);
    assert(t.take(d.len() as int) =~= d);
    lemma_parse_decimal(expiry, u64::MAX as nat);
    assert(t.skip(d.len() as int + 1) =~= signature(secret, expiry));
}

// ---------------------------------------------------------------------------
// throttling
// ---------------------------------------------------------------------------

/// Nanoseconds in a second: the throttle keeps time in nanoseconds.
pub const NANOS_PER_SEC: u64 = 1_000_000_000;

#[verifier::external_type_specification]
#[verifier::external_body]
pub struct ExInstant(std::time::Instant);

/// Calls `Instant::now`. Nothing is claimed of the reading.
#[verifier::external_body]
fn instant_now() -> std::time::Instant {
    std::time::Instant::now()
}

/// Calls `Instant::elapsed` on `origin` and `Duration::as_nanos`, capped at
/// `u64::MAX`. The monotonic clock decides; nothing is claimed.
#[verifier::external_body]
fn nanos_since(origin: &std::time::Instant) -> u64 {
    u64::try_from(origin.elapsed().as_nanos()).unwrap_or(u64::MAX)
}

/// Failed attempts from one address, and when its lockout ends, in
/// nanoseconds of the throttle's monotonic clock.
#[derive(Clone, Copy, Debug, PartialEq, Eq)]
pub struct Strike {
    pub count: u32,
    pub locked_until: Option<u64>,
}

/// `2^d`.
pub open spec fn doubling(d: nat) -> nat
    decreases d,
{
    if d == 0 {
        1
    } else {
        2 * doubling((d - 1) as nat)
    }
}

/// The lockout after the `count`-th consecutive failure, for `count` at least
/// `MAX_STRIKES`: 30 s doubled once per failure past the fifth, at most five
/// times, and never more than 15 minutes.
pub open spec fn lockout_secs(count: nat) -> nat {
    let over: nat = (count - MAX_STRIKES) as nat;
    let d: nat = if over < 5 { over } else { 5 };
    let b: nat = (BASE_LOCKOUT * doubling(d)) as nat;
    if b < MAX_LOCKOUT { b } else { MAX_LOCKOUT as nat }
}

/// `a + b`, or `u64::MAX` when that is larger.
pub open spec fn sat_add(a: nat, b: nat) -> nat {
    if a + b <= u64::MAX { a + b } else { u64::MAX as nat }
}

/// The throttle's record after a failed PIN from `ip` at `now` (in
/// nanoseconds): one more strike, and from the fifth on a fresh lockout of
/// `lockout_secs` seconds from `now`.
pub open spec fn after_failure(st: Map<Seq<char>, Strike>, ip: Seq<char>, now: nat) -> Map<
    Seq<char>,
    Strike,
> {
    let prev: nat = if st.contains_key(ip) { st[ip].count as nat } else { 0 };
    let count: nat = if prev < u32::MAX { prev + 1 } else { prev };
    let until = if count >= MAX_STRIKES {
        Some(sat_add(now, lockout_secs(count) * (NANOS_PER_SEC as nat)) as u64)
    } else if st.contains_key(ip) {
        st[ip].locked_until
    } else {
        None
    };
    st.insert(ip, Strike { count: count as u32, locked_until: until })
}

/// How many nanoseconds `ip` must still wait at `now`, if it is locked out.
pub open spec fn locked_remaining(st: Map<Seq<char>, Strike>, ip: Seq<char>, now: nat) -> Option<
    nat,
> {
    if st.contains_key(ip) && st[ip].locked_until is Some && now <= st[ip].locked_until->0 {
        Some((st[ip].locked_until->0 - now) as nat)
    } else {
        None
    }
}

/// Per-address failed-PIN tracker with exponential lockout, on a monotonic
/// clock counted from when the throttle was made.
pub struct Throttle {
    ips: Table<Strike>,
    origin: std::time::Instant,
}

impl View for Throttle {
    type V = Map<Seq<char>, Strike>;

    closed spec fn view(&self) -> Map<Seq<char>, Strike> {
        self.ips.view()
    }
}

impl Throttle {
    #[verifier::type_invariant]
    spec fn inv(self) -> bool {
        self.ips.wf()
    }

    /// A throttle that has seen no failures.
    pub fn new() -> (t: Self)
        ensures
            t@ == Map::<Seq<char>, Strike>::empty(),
    {
        Throttle { ips: Table::new(), origin: instant_now() }
    }

    /// How long `ip` must wait at `now`, in nanoseconds, if it is locked out.
    pub fn locked_for_at(&self, ip: &str, now: u64) -> (r: Option<u64>)
        ensures
            match r {
                Some(w) => locked_remaining(self@, ip@, now as nat) == Some(w as nat),
                None => locked_remaining(self@, ip@, now as nat) is None,
            },
    {
        proof {
            use_type_invariant(self);
        }
        let key = ip.to_owned();
        match self.ips.find(&key) {
            None => None,
            Some(i) => {
                proof {
                    self.ips.lemma_entry(i as int);
                }
                let strike = self.ips.val_at(i);
                match strike.locked_until {
                    Some(until) => {
                        if now <= until {
                            Some(until - now)
                        } else {
                            None
                        }
                    },
                    None => None,
                }
            },
        }
    }

    /// How long `ip` must still wait, in nanoseconds, if it is locked out now.
    pub fn locked_for(&self, ip: &str) -> (r: Option<u64>)
        ensures
            exists|t: u64|
                match r {
                    Some(w) => #[trigger] locked_remaining(self@, ip@, t as nat) == Some(w as nat),
                    None => locked_remaining(self@, ip@, t as nat) is None,
                },
    {
        let t = nanos_since(&self.origin);
        self.locked_for_at(ip, t)
    }

    /// Records a wrong PIN from `ip` at `now`, in nanoseconds.
    pub fn record_failure_at(&mut self, ip: &str, now: u64)
        ensures
            final(self)@ == after_failure(old(self)@, ip@, now as nat),
    {
        proof {
            use_type_invariant(&*self);
        }
        let key = ip.to_owned();
        let mut t: Table<Strike> = Table::new();
        std::mem::swap(&mut t, &mut self.ips);
        let found = t.find(&key);
        let (prev, prev_until): (u32, Option<u64>) = match found {
            Some(i) => {
                proof {
                    t.lemma_entry(i as int);
                }
                let s = t.val_at(i);
                (s.count, s.locked_until)
            },
            None => (0, None),
        };
        let count: u32 = if prev < u32::MAX { prev + 1 } else { prev };
        let until: Option<u64> = if count >= MAX_STRIKES {
            let span = lockout_for(count) * NANOS_PER_SEC;
            Some(if span <= u64::MAX - now { now + span } else { u64::MAX })
        } else {
            prev_until
        };
        let strike = Strike { count, locked_until: until };
        match found {
            Some(i) => {
                t.set_at(i, strike);
            },
            None => {
                t.push(key, strike);
            },
        }
        self.ips = t;
    }

    /// Records a wrong PIN from `ip` now.
    pub fn record_failure(&mut self, ip: &str)
        ensures
            exists|t: u64| final(self)@ == #[trigger] after_failure(old(self)@, ip@, t as nat),
    {
        let t = nanos_since(&self.origin);
        self.record_failure_at(ip, t);
    }

    /// A correct PIN from `ip` clears its record.
    pub fn record_success(&mut self, ip: &str)
        ensures
            final(self)@ == old(self)@.remove(ip@),
    {
        proof {
            use_type_invariant(&*self);
        }
        let key = ip.to_owned();
        let mut t: Table<Strike> = Table::new();
        std::mem::swap(&mut t, &mut self.ips);
        match t.find(&key) {
            Some(i) => {
                t.remove_at(i);
            },
            None => {
                assert(t.view().remove(key@) =~= t.view());
            },
        }
        self.ips = t;
    }
}

impl Default for Throttle {
    fn default() -> (t: Self)
        ensures
            t@ == Map::<Seq<char>, Strike>::empty(),
    {
        Throttle::new()
    }
}

/// The answer to a PIN typed into the page.
#[derive(Clone, Copy, Debug, PartialEq, Eq)]
pub enum PinCheck {
    /// The address is locked out for this many more whole seconds; nothing
    /// was checked.
    Locked(u64),
    /// The PIN was wrong, and the failure was counted.
    Wrong,
    /// The PIN was right, and the address's failures were forgiven.
    Granted,
}

impl Throttle {
    /// Judges a PIN `sent` from `ip` at `now` (in nanoseconds) against `pin`: a locked-out
    /// address is turned away before its PIN is compared; otherwise the
    /// whitespace-trimmed PIN either clears the address's record or counts
    /// as one more failure.
    pub fn check_pin_at(&mut self, ip: &str, sent: &str, pin: &str, now: u64) -> (r: PinCheck)
        ensures
            match locked_remaining(old(self)@, ip@, now as nat) {
                Some(w) => r == PinCheck::Locked((w / NANOS_PER_SEC as nat) as u64) && final(self)@ == old(self)@,
                None => if trim_both(sent@, Trim::Space) == pin@ {
                    r == PinCheck::Granted && final(self)@ == old(self)@.remove(ip@)
                } else {
                    r == PinCheck::Wrong && final(self)@ == after_failure(old(self)@, ip@, now as nat)
                },
            },
    {
        if let Some(w) = self.locked_for_at(ip, now) {
            return PinCheck::Locked(w / NANOS_PER_SEC);
        }
        let sc = chars_of(sent);
        let st = string_of(&trimmed(&sc, Trim::Space));
        if constant_eq(st.as_str(), pin) {
            self.record_success(ip);
            PinCheck::Granted
        } else {
            self.record_failure_at(ip, now);
            PinCheck::Wrong
        }
    }

    /// `check_pin_at` at the current reading of the throttle's clock.
    pub fn check_pin(&mut self, ip: &str, sent: &str, pin: &str) -> (r: PinCheck)
        ensures
            exists|now: u64|
                match #[trigger] locked_remaining(old(self)@, ip@, now as nat) {
                    Some(w) => r == PinCheck::Locked((w / NANOS_PER_SEC as nat) as u64) && final(self)@ == old(self)@,
                    None => if trim_both(sent@, Trim::Space) == pin@ {
                        r == PinCheck::Granted && final(self)@ == old(self)@.remove(ip@)
                    } else {
                        r == PinCheck::Wrong && final(self)@ == after_failure(old(self)@, ip@, now as nat)
                    },
                },
    {
        let t = nanos_since(&self.origin);
        self.check_pin_at(ip, sent, pin, t)
    }
}

/// The refusal shown to a locked-out address: `Too many attempts. Wait {secs}s.`
pub fn lockout_message(secs: u64) -> (m: String)
    ensures
        m@ == "Too many attempts. Wait "@ + decimal(secs as nat) + "s."@,
{
    let mut v: Vec<char> = Vec::new();
    extend_str(&mut v, "Too many attempts. Wait ");
    push_decimal(&mut v, secs);
    extend_str(&mut v, "s.");
    string_of(&v)
}

/// The lockout in seconds after the `count`-th consecutive failure.
pub fn lockout_for(count: u32) -> (secs: u64)
    requires
        count >= MAX_STRIKES,
    ensures
        secs == lockout_secs(count as nat),
        secs <= MAX_LOCKOUT,
{
    let over = count - MAX_STRIKES;
    let d: u32 = if over < 5 { over } else { 5 };
    let mut factor: u64 = 1;
    let mut k: u32 = 0;
    while k < d
        invariant
            k <= d <= 5,
            factor == doubling(k as nat),
            factor <= 32,
        decreases d - k,
    {
        proof {
            assert(doubling((k + 1) as nat) == 2 * doubling(k as nat));
            if k == 0 { assert(doubling(1) == 2); }
        }
        factor = factor * 2;
        k = k + 1;
        proof {
            reveal_with_fuel(doubling, 6);
        }
    }
    let b = BASE_LOCKOUT * factor;
    if b < MAX_LOCKOUT {
        b
    } else {
        MAX_LOCKOUT
    }
}

/// The record after failures from `ip` at each of `times`, in order.
pub open spec fn after_failures(st: Map<Seq<char>, Strike>, ip: Seq<char>, times: Seq<nat>) -> Map<
    Seq<char>,
    Strike,
>
    decreases times.len(),
{
    if times.len() == 0 {
        st
    } else {
        after_failure(after_failures(st, ip, times.drop_last()), ip, times.last())
    }
}

proof fn lemma_failures_count(st: Map<Seq<char>, Strike>, ip: Seq<char>, times: Seq<nat>)
    requires
        !st.contains_key(ip),
        times.len() <= MAX_STRIKES,
    ensures
        times.len() > 0 ==> after_failures(st, ip, times).contains_key(ip)
            && after_failures(st, ip, times)[ip].count == times.len()
            && (after_failures(st, ip, times)[ip].locked_until is Some <==> times.len()
            == MAX_STRIKES),
    decreases times.len(),
{
    if times.len() > 0 {
        lemma_failures_count(st, ip, times.drop_last());
    }
}

/// An address that was not being tracked can get four PINs wrong without
/// being locked out; the fifth locks it out for 30 seconds from that failure.
/// Times are in nanoseconds.
pub proof fn lemma_fifth_failure_locks(st: Map<Seq<char>, Strike>, ip: Seq<char>, times: Seq<nat>, now: nat)
    requires
        !st.contains_key(ip),
        times.len() <= MAX_STRIKES,
        forall|i: int| 0 <= i < times.len() ==> #[trigger] times[i] <= u64::MAX - MAX_LOCKOUT * NANOS_PER_SEC,
    ensures
        times.len() < MAX_STRIKES ==> locked_remaining(after_failures(st, ip, times), ip, now) is None,
        times.len() == MAX_STRIKES ==> locked_remaining(after_failures(st, ip, times), ip, times.last())
            == Some((BASE_LOCKOUT * NANOS_PER_SEC) as nat),
{
    lemma_failures_count(st, ip, times);
    if times.len() == MAX_STRIKES {
        assert(lockout_secs(5) == 30);
        assert(times[times.len() - 1] <= u64::MAX - MAX_LOCKOUT * NANOS_PER_SEC);
    }
}

/// Each failure past the fifth doubles the lockout, up to 15 minutes.
pub proof fn lemma_lockout_doubles(count: nat)
    requires
        count >= MAX_STRIKES,
    ensures
        lockout_secs(MAX_STRIKES as nat) == BASE_LOCKOUT,
        lockout_secs(count + 1) == if 2 * lockout_secs(count) < MAX_LOCKOUT {
            2 * lockout_secs(count)
        } else {
            MAX_LOCKOUT as nat
        },
        lockout_secs(count) <= MAX_LOCKOUT,
{
    reveal_with_fuel(doubling, 7);
}

/// Lockouts are per address: a wrong PIN from one address, or a right one,
/// leaves every other address's lockout as it was.
pub proof fn lemma_lockout_is_per_address(
    st: Map<Seq<char>, Strike>,
    ip: Seq<char>,
    other: Seq<char>,
    at: nat,
    now: nat,
)
    requires
        ip != other,
    ensures
        locked_remaining(after_failure(st, ip, at), other, now) == locked_remaining(st, other, now),
        locked_remaining(st.remove(ip), other, now) == locked_remaining(st, other, now),
{
}

/// A correct PIN ends any lockout.
pub proof fn lemma_success_unlocks(st: Map<Seq<char>, Strike>, ip: Seq<char>, now: nat)
    ensures
        locked_remaining(st.remove(ip), ip, now) is None,
{
}

/// A token is only accepted up to its expiry.
pub proof fn lemma_valid_token_unexpired(secret: Seq<char>, tok: Seq<char>, now: nat)
    requires
        token_valid(secret, tok, now),
    ensures
        (token_expiry(tok) matches Some(e) && now <= e),
{
}

} // verus!
