//! What the daemon's HTTP handlers decide: who is authorised, who is
//! sending, what happens to an upload or a snippet, and how the lists the
//! page and the tray show are ordered. The handlers do the I/O.

use vstd::prelude::*;
use vstd::string::StringSliceAdditionalSpecFns;
use crate::auth::{token_valid, verify_at, constant_eq};
use crate::config::COOKIE;
use crate::offers::{Offer, OfferView, Status};
use crate::text::{
    chars_of, decimal, extend_chars, extend_str, push_decimal, slice_chars, split, split_exec, split_once,
    split_once_exec, string_of, trim_both, trim_end, trimmed, trimmed_end, views, zero_padded, Trim, chars_eq,
    replace_all, replace_exec, parse_int, parse_signed,
};

verus! {

/// A snippet is meant to be a paste, not a file transfer by another name:
/// at most this many bytes.
pub const MAX_TEXT: usize = 65536;

/// How many recent arrivals the tray is told about.
pub const RECENT_MAX: usize = 25;

/// How many files a listing shows.
pub const LIST_MAX: usize = 60;

// ---------------------------------------------------------------------------
// auth
// ---------------------------------------------------------------------------

/// The first `name=value` pair of `pieces` from `i` on whose trimmed name is
/// `name`, its value trimmed.
pub open spec fn cookie_from(pieces: Seq<Seq<char>>, name: Seq<char>, i: int) -> Option<Seq<char>>
    decreases pieces.len() - i,
{
    if i < 0 || i >= pieces.len() {
        None
    } else {
        match split_once(pieces[i], '=') {
            Some((k, v)) if trim_both(k, Trim::Space) == name => Some(trim_both(v, Trim::Space)),
            _ => cookie_from(pieces, name, i + 1),
        }
    }
}

/// The session token in a `Cookie` header.
pub open spec fn session_cookie(header: Seq<char>) -> Option<Seq<char>> {
    cookie_from(split(header, ';'), COOKIE@, 0)
}

/// The session token in a `Cookie` header, if it carries one.
pub fn cookie_token(header: &str) -> (r: Option<String>)
    ensures
        match r {
            Some(t) => session_cookie(header@) == Some(t@),
            None => session_cookie(header@) is None,
        },
{
    let h = chars_of(header);
    let pieces = split_exec(&h, ';');
    let name = chars_of(COOKIE);
    let mut i: usize = 0;
    while i < pieces.len()
        invariant
            i <= pieces.len(),
            name@ == COOKIE@,
            views(pieces@) == split(header@, ';'),
            session_cookie(header@) == cookie_from(views(pieces@), COOKIE@, i as int),
        decreases pieces.len() - i,
    {
        assert(views(pieces@)[i as int] == pieces@[i as int]@);
        match split_once_exec(&pieces[i], '=') {
            Some((k, v)) => {
                let kt = trimmed(&k, Trim::Space);
                if chars_eq(&kt, &name) {
                    let vt = trimmed(&v, Trim::Space);
                    return Some(string_of(&vt));
                }
            },
            None => {},
        }
        i = i + 1;
    }
    None
}

/// A request is authorised at `now` by a session cookie that verifies under
/// the secret, or else by a PIN header whose trimmed value is the PIN.
pub open spec fn authorised(
    secret: Seq<char>,
    pin: Seq<char>,
    cookie_header: Option<Seq<char>>,
    pin_header: Option<Seq<char>>,
    now: nat,
) -> bool {
    let by_cookie = match cookie_header {
        Some(h) => match session_cookie(h) {
            Some(t) => token_valid(secret, t, now),
            None => false,
        },
        None => false,
    };
    by_cookie || match pin_header {
        Some(p) => trim_both(p, Trim::Space) == pin,
        None => false,
    }
}

pub open spec fn opt_view(s: Option<&str>) -> Option<Seq<char>> {
    match s {
        Some(x) => Some(x@),
        None => None,
    }
}

/// Whether a request carrying these headers is authorised at `now`.
pub fn authed_at(
    secret: &str,
    pin: &str,
    cookie_header: Option<&str>,
    pin_header: Option<&str>,
    now: u64,
) -> (r: bool)
    ensures
        r == authorised(secret@, pin@, opt_view(cookie_header), opt_view(pin_header), now as nat),
{
    if let Some(h) = cookie_header {
        if let Some(t) = cookie_token(h) {
            if verify_at(secret, t.as_str(), now) {
                return true;
            }
        }
    }
    match pin_header {
        Some(p) => {
            let pc = chars_of(p);
            let sent = string_of(&trimmed(&pc, Trim::Space));
            constant_eq(sent.as_str(), pin)
        },
        None => false,
    }
}

/// Whether a request carrying these headers is authorised now.
pub fn authed(secret: &str, pin: &str, cookie_header: Option<&str>, pin_header: Option<&str>) -> (r: bool)
    ensures
        exists|t: u64|
            r == #[trigger] authorised(secret@, pin@, opt_view(cookie_header), opt_view(pin_header), t as nat),
{
    let t = crate::auth::now();
    authed_at(secret, pin, cookie_header, pin_header, t)
}

/// The `Set-Cookie` value that hands a browser its session.
pub fn session_cookie_header(token: &str, max_age: u64) -> (out: String)
    ensures
        out@ == COOKIE@ + "="@ + token@ + "; HttpOnly; SameSite=Lax; Path=/; Max-Age="@ + decimal(
            max_age as nat,
        ),
{
    let mut v = chars_of(COOKIE);
    extend_str(&mut v, "=");
    extend_str(&mut v, token);
    extend_str(&mut v, "; HttpOnly; SameSite=Lax; Path=/; Max-Age=");
    push_decimal(&mut v, max_age);
    string_of(&v)
}

// ---------------------------------------------------------------------------
// who is sending
// ---------------------------------------------------------------------------

/// The name a client claims in `X-Drop-Device`: trimmed, at most 64
/// characters, and only if not blank.
pub open spec fn claimed_device(raw: Option<Seq<char>>) -> Option<Seq<char>> {
    match raw {
        Some(r) => {
            let t = trim_both(r, Trim::Space);
            if t.len() == 0 {
                None
            } else if t.len() > 64 {
                Some(t.take(64))
            } else {
                Some(t)
            }
        },
        None => None,
    }
}

pub fn device_header(raw: Option<&str>) -> (r: Option<String>)
    ensures
        match r {
            Some(d) => claimed_device(opt_view(raw)) == Some(d@),
            None => claimed_device(opt_view(raw)) is None,
        },
{
    match raw {
        None => None,
        Some(r) => {
            let c = chars_of(r);
            let t = trimmed(&c, Trim::Space);
            if t.len() == 0 {
                None
            } else if t.len() > 64 {
                Some(string_of(&slice_chars(&t, 0, 64)))
            } else {
                Some(string_of(&t))
            }
        },
    }
}

/// Who is sending: the name it claims, else `Device at {ip}`.
pub fn sender_name(device: Option<String>, ip: &str) -> (out: String)
    ensures
        out@ == match device {
            Some(d) => d@,
            None => "Device at "@ + ip@,
        },
{
    match device {
        Some(d) => d,
        None => {
            let mut v = chars_of("Device at ");
            extend_str(&mut v, ip);
            string_of(&v)
        },
    }
}

/// The device named in an offer request: its own field if not blank, else
/// the sender's header name or address.
pub fn offer_device(field: Option<String>, fallback: String) -> (out: String)
    ensures
        out@ == match field {
            Some(d) => if trim_both(d@, Trim::Space).len() > 0 { d@ } else { fallback@ },
            None => fallback@,
        },
{
    match field {
        Some(d) => {
            let c = chars_of(d.as_str());
            if trimmed(&c, Trim::Space).len() > 0 {
                d
            } else {
                fallback
            }
        },
        None => fallback,
    }
}

// ---------------------------------------------------------------------------
// clock
// ---------------------------------------------------------------------------

/// `epoch as i64`: values past `i64::MAX` wrap around.
pub open spec fn as_signed(epoch: nat) -> int {
    if epoch <= i64::MAX { epoch as int } else { epoch - 0x1_0000_0000_0000_0000 }
}

/// Local `HH:MM` for `epoch` at a UTC offset of `offset` seconds.
pub open spec fn clock_text(epoch: nat, offset: int) -> Seq<char> {
    let day = (as_signed(epoch) + offset) % 86400;
    zero_padded((day / 3600) as nat, 2) + ":"@ + zero_padded(((day % 3600) / 60) as nat, 2)
}

fn push_two(v: &mut Vec<char>, n: u64)
    requires
        n < 100,
    ensures
        final(v)@ == old(v)@ + zero_padded(n as nat, 2),
{
    if n < 10 {
        v.push('0');
    }
    let ghost mid = v@;
    push_decimal(v, n);
    proof {
        crate::text::lemma_decimal_digits(n as nat);
        if n < 10 {
            assert(decimal(n as nat).len() == 1);
            assert(v@ =~= old(v)@ + zero_padded(n as nat, 2));
        } else {
            assert(decimal((n / 10) as nat).len() == 1);
            assert(decimal(n as nat).len() == 2);
            assert(v@ =~= old(v)@ + zero_padded(n as nat, 2));
        }
    }
}

/// Seconds since the epoch as local `HH:MM`, given the UTC offset.
pub fn clock(epoch: u64, offset: i64) -> (out: String)
    requires
        i64::MIN <= as_signed(epoch as nat) + offset <= i64::MAX,
    ensures
        out@ == clock_text(epoch as nat, offset as int),
{
    let signed: i128 = if epoch <= i64::MAX as u64 { epoch as i128 } else { epoch as i128 - 0x1_0000_0000_0000_0000i128 };
    let local: i128 = signed + offset as i128;
    let day: i128 = if local % 86400 < 0 { local % 86400 + 86400 } else { local % 86400 };
    assert(day == (as_signed(epoch as nat) + offset) % 86400);
    let mut v: Vec<char> = Vec::new();
    push_two(&mut v, (day / 3600) as u64);
    v.push(':');
    push_two(&mut v, ((day % 3600) / 60) as u64);
    proof {
        reveal_strlit(":");
    }
    assert(v@ =~= clock_text(epoch as nat, offset as int));
    string_of(&v)
}

/// The UTC offset in seconds that `date +%z` prints, such as `+0530`: `-`
/// first makes it negative; any run of `+` and `-` is skipped; then the
/// first two and the next two characters are read as integers, hours and
/// minutes.
pub open spec fn utc_offset(raw: Seq<char>) -> Option<int> {
    let s = trim_both(raw, Trim::Space);
    let negative = s.len() > 0 && s[0] == '-';
    let digits = crate::text::trim_start(s, Trim::Sign);
    if digits.len() >= 4 {
        match (
            parse_signed(digits.take(2), i64::MIN as int, i64::MAX as int),
            parse_signed(digits.subrange(2, 4), i64::MIN as int, i64::MAX as int),
        ) {
            (Some(h), Some(m)) => Some(if negative { -(h * 3600 + m * 60) } else { h * 3600 + m * 60 }),
            _ => None,
        }
    } else {
        None
    }
}

proof fn lemma_two_digits(a: char, b: char)
    requires
        crate::text::is_digit(a),
        crate::text::is_digit(b),
    ensures
        parse_signed(seq![a, b], i64::MIN as int, i64::MAX as int) == Some(
            (10 * crate::text::digit_value(a) + crate::text::digit_value(b)) as int,
        ),
{
    let t = seq![a, b];
    assert(t.drop_last() =~= seq![a]);
    assert(seq![a].drop_last() =~= Seq::<char>::empty());
    assert(crate::text::digits_value(Seq::<char>::empty()) == 0);
    assert(seq![a].last() == a);
    assert(crate::text::digits_value(seq![a]) == crate::text::digits_value(seq![a].drop_last()) * 10
        + crate::text::digit_value(a));
    assert(crate::text::digits_value(seq![a]) == crate::text::digit_value(a));
    assert(crate::text::digits_value(t) == 10 * crate::text::digit_value(a) + crate::text::digit_value(b));
    assert(crate::text::all_digits(t));
}

/// An offset `date +%z` prints as a sign and four digits `HHMM` is
/// `HH` hours and `MM` minutes in seconds, the sign applying to the whole:
/// `-0330` is `-(3·3600 + 30·60)`.
pub proof fn lemma_utc_offset_of_digits(sign: char, a: char, b: char, c: char, d: char)
    requires
        sign == '+' || sign == '-',
        crate::text::is_digit(a),
        crate::text::is_digit(b),
        crate::text::is_digit(c),
        crate::text::is_digit(d),
    ensures
        ({
            let hh = 10 * crate::text::digit_value(a) + crate::text::digit_value(b);
            let mm = 10 * crate::text::digit_value(c) + crate::text::digit_value(d);
            utc_offset(seq![sign, a, b, c, d]) == Some(
                if sign == '-' { -(hh * 3600 + mm * 60) } else { (hh * 3600 + mm * 60) as int },
            )
        }),
{
    let s = seq![sign, a, b, c, d];
    let digits = seq![a, b, c, d];
    assert(s.drop_first() =~= digits);
    assert(crate::text::trim_start(s, Trim::Space) == s);
    assert(trim_end(s, Trim::Space) == s);
    assert(trim_both(s, Trim::Space) == s);
    assert(crate::text::trim_start(digits, Trim::Sign) == digits);
    assert(crate::text::trim_start(s, Trim::Sign) == digits);
    assert(digits.take(2) =~= seq![a, b]);
    assert(digits.subrange(2, 4) =~= seq![c, d]);
    lemma_two_digits(a, b);
    lemma_two_digits(c, d);
}

pub fn parse_utc_offset(raw: &str) -> (r: Option<i64>)
    ensures
        match r {
            Some(o) => utc_offset(raw@) == Some(o as int),
            None => utc_offset(raw@) is None,
        },
{
    let c = chars_of(raw);
    let s = trimmed(&c, Trim::Space);
    let neg = s.len() > 0 && s[0] == '-';
    let digits = crate::text::trimmed_start(&s, Trim::Sign);
    if digits.len() < 4 {
        return None;
    }
    let hs = slice_chars(&digits, 0, 2);
    let ms = slice_chars(&digits, 2, 4);
    assert(hs@ =~= digits@.take(2));
    assert(ms@ =~= digits@.subrange(2, 4));
    let h = parse_int(&hs, i64::MIN, i64::MAX);
    let m = parse_int(&ms, i64::MIN, i64::MAX);
    match (h, m) {
        (Some(h), Some(m)) => {
            proof {
                crate::text::lemma_two_char_number(hs@, i64::MIN as int, i64::MAX as int);
                crate::text::lemma_two_char_number(ms@, i64::MIN as int, i64::MAX as int);
            }
            let mag: i64 = h * 3600 + m * 60;
            Some(if neg { -mag } else { mag })
        },
        _ => None,
    }
}

// ---------------------------------------------------------------------------
// snippets
// ---------------------------------------------------------------------------

/// Why a pasted snippet was refused.
#[derive(Clone, Copy, Debug, PartialEq, Eq, Structural)]
pub enum SnippetError {
    /// Nothing but line feeds: 400.
    Empty,
    /// More than `MAX_TEXT` bytes: 413.
    TooLong,
}

/// The length in bytes that `str::len` reports for a string of these
/// characters: the size of their UTF-8 encoding.
pub open spec fn utf8_len(chars: Seq<char>) -> usize {
    vstd::utf8::encode_utf8(chars).len() as usize
}

/// A received snippet: without trailing line feeds, refused when empty or
/// longer than `MAX_TEXT` bytes of UTF-8.
pub fn snippet_body(text: &str) -> (r: Result<String, SnippetError>)
    ensures
        ({
            let body = trim_end(text@, Trim::Newline);
            match r {
                Ok(b) => b@ == body && body.len() > 0 && utf8_len(body) <= MAX_TEXT,
                Err(e) => if body.len() == 0 {
                    e == SnippetError::Empty
                } else {
                    e == SnippetError::TooLong && utf8_len(body) > MAX_TEXT
                },
            }
        }),
{
    let c = chars_of(text);
    let body = string_of(&trimmed_end(&c, Trim::Newline));
    if body.as_str().is_empty() {
        return Err(SnippetError::Empty);
    }
    if body.as_str().len() > MAX_TEXT {
        return Err(SnippetError::TooLong);
    }
    Ok(body)
}

/// The file a received snippet is saved as: `text-{now}.txt`.
pub fn snippet_name(now: u64) -> (out: String)
    ensures
        out@ == "text-"@ + decimal(now as nat) + ".txt"@,
{
    let mut v = chars_of("text-");
    push_decimal(&mut v, now);
    extend_str(&mut v, ".txt");
    string_of(&v)
}

/// Where a received snippet goes.
#[derive(Clone, Debug)]
pub enum SnippetRoute {
    /// Approval is off: save it in this folder straight away.
    Land(String),
    /// Raise an offer and wait for the verdict.
    Offer,
}

/// Routes a received snippet under the configuration `cfg`: with approval
/// off it lands where accepted files land, otherwise it is offered.
pub fn snippet_route(cfg: &crate::config::Config) -> (r: SnippetRoute)
    ensures
        if cfg.require_approval {
            r is Offer
        } else {
            r matches SnippetRoute::Land(d) && d@ == (if cfg.auto_move { cfg.move_target@ } else { cfg.dir@ })
        },
{
    if cfg.require_approval {
        SnippetRoute::Offer
    } else {
        SnippetRoute::Land(cfg.landing_dir())
    }
}

/// A snippet cut to its first `MAX_TEXT` bytes, for sharing outward. The cut
/// must fall between characters, as slicing a `str` demands.
pub fn clip_text(text: &str) -> (out: String)
    requires
        text.len() <= MAX_TEXT || text.is_char_boundary(MAX_TEXT),
    ensures
        vstd::utf8::encode_utf8(out@) == if text.len() > MAX_TEXT {
            text.spec_bytes().take(MAX_TEXT as int)
        } else {
            text.spec_bytes()
        },
{
    if text.len() > MAX_TEXT {
        let (head, _) = text.split_at(MAX_TEXT);
        let out = head.to_owned();
        assert(head.spec_bytes() =~= text.spec_bytes().take(MAX_TEXT as int));
        out
    } else {
        text.to_owned()
    }
}

/// Whether `clip_text` may cut `text`: it is short enough, or byte
/// `MAX_TEXT` starts a character.
pub fn clippable(text: &str) -> (r: bool)
    ensures
        r == (text.len() <= MAX_TEXT || text.is_char_boundary(MAX_TEXT)),
{
    text.len() <= MAX_TEXT || text.is_char_boundary(MAX_TEXT)
}

// ---------------------------------------------------------------------------
// uploads and verdicts
// ---------------------------------------------------------------------------

/// Where an upload goes.
#[derive(Clone, Copy, Debug, PartialEq, Eq, Structural)]
pub enum UploadRoute {
    /// `?offer=` names no offer: 404.
    NoSuchOffer,
    /// The named offer is not accepted: 403, with its status.
    NotAccepted(Status),
    /// The named offer was accepted: take the files, then mark it complete.
    IntoDropForOffer,
    /// Approval is off: take the files straight into the Drop folder.
    IntoDrop,
    /// A one-shot sender: park the files in staging and raise an offer.
    Stage,
}

/// Where an upload goes: against a named offer only once it is accepted,
/// straight in when approval is off, and otherwise into staging.
pub open spec fn route_for(named_offer: bool, found: Option<Status>, require_approval: bool) -> UploadRoute {
    if named_offer {
        match found {
            None => UploadRoute::NoSuchOffer,
            Some(s) => if s == Status::Accepted {
                UploadRoute::IntoDropForOffer
            } else {
                UploadRoute::NotAccepted(s)
            },
        }
    } else if !require_approval {
        UploadRoute::IntoDrop
    } else {
        UploadRoute::Stage
    }
}

/// Routes an upload. `named_offer` says whether it named an offer and
/// `found` what that offer's status is, if it exists.
pub fn upload_route(named_offer: bool, found: Option<Status>, require_approval: bool) -> (r: UploadRoute)
    ensures
        r == route_for(named_offer, found, require_approval),
{
    if named_offer {
        match found {
            None => UploadRoute::NoSuchOffer,
            Some(s) => if s == Status::Accepted {
                UploadRoute::IntoDropForOffer
            } else {
                UploadRoute::NotAccepted(s)
            },
        }
    } else if !require_approval {
        UploadRoute::IntoDrop
    } else {
        UploadRoute::Stage
    }
}

/// Nothing reaches the Drop folder without a decision: an upload goes
/// straight in only against an accepted offer, or with approval switched off.
pub proof fn lemma_no_unapproved_landing(named_offer: bool, found: Option<Status>, require_approval: bool)
    ensures
        ({
            let r = route_for(named_offer, found, require_approval);
            (r == UploadRoute::IntoDropForOffer || r == UploadRoute::IntoDrop) ==> (found == Some(
                Status::Accepted,
            ) || !require_approval)
        }),
{
}

/// What deciding an offer does with its files.
#[derive(Clone, Debug)]
pub enum VerdictPlan {
    /// A negotiated offer: nothing is here yet; the sender will upload.
    Tell,
    /// Declined staged files: delete the staging folder.
    Discard(String),
    /// Accepted staged files: move them out of the staging folder.
    Surface(String),
}

pub fn verdict_plan(offer: &Offer, accept: bool) -> (p: VerdictPlan)
    ensures
        match offer.staged {
            None => p is Tell,
            Some(st) => if accept {
                p matches VerdictPlan::Surface(d) && d@ == st@
            } else {
                p matches VerdictPlan::Discard(d) && d@ == st@
            },
        },
{
    match &offer.staged {
        None => VerdictPlan::Tell,
        Some(st) => if accept {
            VerdictPlan::Surface(st.clone())
        } else {
            VerdictPlan::Discard(st.clone())
        },
    }
}

// ---------------------------------------------------------------------------
// listings
// ---------------------------------------------------------------------------

/// A file as the page and the tray list it.
#[derive(Clone, Debug)]
pub struct Received {
    pub name: String,
    pub size: String,
    pub when: String,
}

pub struct ReceivedView {
    pub name: Seq<char>,
    pub size: Seq<char>,
    pub when: Seq<char>,
}

impl View for Received {
    type V = ReceivedView;

    open spec fn view(&self) -> ReceivedView {
        ReceivedView { name: self.name@, size: self.size@, when: self.when@ }
    }
}

impl Received {
    pub fn duplicate(&self) -> (r: Received)
        ensures
            r@ == self@,
    {
        Received { name: self.name.clone(), size: self.size.clone(), when: self.when.clone() }
    }
}

pub open spec fn received_views(v: Seq<Received>) -> Seq<ReceivedView> {
    v.map_values(|r: Received| r@)
}

/// Records an arrival at the front of the recent list, which keeps the last
/// `RECENT_MAX`.
pub fn record_recent(recent: &mut Vec<Received>, item: Received)
    ensures
        received_views(final(recent)@) == ({
            let all = seq![item@] + received_views(old(recent)@);
            if all.len() > RECENT_MAX { all.take(RECENT_MAX as int) } else { all }
        }),
{
    let ghost iv = item@;
    recent.insert(0, item);
    if recent.len() > RECENT_MAX {
        recent.truncate(RECENT_MAX);
    }
    proof {
        let all = seq![iv] + received_views(old(recent)@);
        let want = if all.len() > RECENT_MAX { all.take(RECENT_MAX as int) } else { all };
        assert forall|j: int| 0 <= j < want.len() implies received_views(recent@)[j] == want[j] by {
            if j > 0 {
                assert(recent@[j] == old(recent)@[j - 1]);
            }
        }
        assert(received_views(recent@) =~= want);
    }
}

/// A name the listings hide: dotfiles, including the staging folder.
pub fn is_hidden(name: &str) -> (r: bool)
    ensures
        r == (name@.len() > 0 && name@[0] == '.'),
{
    let c = chars_of(name);
    c.len() > 0 && c[0] == '.'
}

/// `out` is `entries` ordered newest first, stably: each listed file comes
/// from the entry `src` names, every entry is listed once, and files of the
/// same age keep their order.
pub open spec fn stable_newest_first(entries: Seq<(u64, Received)>, out: Seq<(u64, Received)>, src: Seq<int>) -> bool {
    &&& src.len() == out.len() == entries.len()
    &&& forall|p: int| 0 <= p < src.len() ==> 0 <= #[trigger] src[p] < entries.len() && out[p] == entries[src[p]]
    &&& forall|p: int, q: int| 0 <= p < q < src.len() ==> src[p] != src[q]
    &&& newest_first_order(out, src)
}

/// Later positions hold older files, or files of the same age from later
/// source positions.
pub open spec fn newest_first_order(out: Seq<(u64, Received)>, src: Seq<int>) -> bool {
    forall|p: int, q: int|
        #![trigger out[p], out[q]]
        0 <= p < q < out.len() ==> out[p].0 > out[q].0 || (out[p].0 == out[q].0 && src[p] < src[q])
}

proof fn lemma_insert_keeps_order(
    out: Seq<(u64, Received)>,
    src: Seq<int>,
    x: (u64, Received),
    pos: int,
    i: int,
)
    requires
        newest_first_order(out, src),
        src.len() == out.len(),
        0 <= pos <= out.len(),
        forall|q: int| 0 <= q < pos ==> #[trigger] out[q].0 >= x.0,
        pos < out.len() ==> out[pos].0 < x.0,
        forall|q: int| 0 <= q < src.len() ==> #[trigger] src[q] < i,
    ensures
        newest_first_order(out.insert(pos, x), src.insert(pos, i)),
{
    let o2 = out.insert(pos, x);
    let s2 = src.insert(pos, i);
    assert forall|p: int, q: int| 0 <= p < q < o2.len() implies o2[p].0 > o2[q].0 || (o2[p].0 == o2[q].0
        && s2[p] < s2[q]) by {
        if q < pos {
            assert(o2[p] == out[p] && o2[q] == out[q] && s2[p] == src[p] && s2[q] == src[q]);
        } else if q == pos {
            assert(o2[p] == out[p] && s2[p] == src[p]);
            assert(out[p].0 >= x.0);
            assert(src[p] < i);
        } else if p == pos {
            assert(o2[q] == out[q - 1]);
            if q - 1 > pos {
                assert(out[pos].0 > out[q - 1].0 || out[pos].0 == out[q - 1].0);
            }
        } else if p < pos {
            assert(o2[p] == out[p] && o2[q] == out[q - 1] && s2[p] == src[p] && s2[q] == src[q - 1]);
            assert(out[p].0 > out[q - 1].0 || (out[p].0 == out[q - 1].0 && src[p] < src[q - 1]));
        } else {
            assert(o2[p] == out[p - 1] && o2[q] == out[q - 1] && s2[p] == src[p - 1] && s2[q] == src[q - 1]);
            assert(out[p - 1].0 > out[q - 1].0 || (out[p - 1].0 == out[q - 1].0 && src[p - 1] < src[q - 1]));
        }
    }
}

/// Sorts listing entries newest first, keeping the order of equals.
pub fn sort_newest_first(entries: Vec<(u64, Received)>) -> (out: Vec<(u64, Received)>)
    ensures
        exists|src: Seq<int>| #[trigger] stable_newest_first(entries@, out@, src),
{
    let n = entries.len();
    let ghost e = entries@;
    let mut out: Vec<(u64, Received)> = Vec::new();
    let ghost mut src: Seq<int> = Seq::empty();
    let mut rest = entries;
    let mut i: usize = 0;
    while i < n
        invariant
            n == e.len(),
            i <= n,
            rest@ == e.subrange(i as int, n as int),
            src.len() == out.len() == i,
            forall|p: int| 0 <= p < src.len() ==> 0 <= #[trigger] src[p] < i && out@[p] == e[src[p]],
            forall|p: int, q: int| 0 <= p < q < src.len() ==> src[p] != src[q],
            newest_first_order(out@, src),
        decreases n - i,
    {
        let x = rest.remove(0);
        assert(x == e[i as int]);
        assert(rest@ =~= e.subrange(i + 1, n as int));
        let mut pos: usize = 0;
        while pos < out.len() && out[pos].0 >= x.0
            invariant
                pos <= out.len(),
                forall|q: int| 0 <= q < pos ==> out@[q].0 >= x.0,
            decreases out.len() - pos,
        {
            pos = pos + 1;
        }
        let ghost old_out = out@;
        let ghost old_src = src;
        out.insert(pos, x);
        proof {
            src = src.insert(pos as int, i as int);
            assert forall|p: int| 0 <= p < src.len() implies 0 <= #[trigger] src[p] < i + 1 && out@[p] == e[src[p]] by {
                if p < pos {
                    assert(src[p] == old_src[p] && out@[p] == old_out[p]);
                } else if p > pos {
                    assert(src[p] == old_src[p - 1] && out@[p] == old_out[p - 1]);
                }
            }
            assert forall|p: int, q: int| 0 <= p < q < src.len() implies src[p] != src[q] by {
                if p < pos && q > pos {
                    assert(src[q] == old_src[q - 1]);
                } else if p > pos {
                    assert(src[p] == old_src[p - 1] && src[q] == old_src[q - 1]);
                } else if q < pos {
                    assert(src[p] == old_src[p] && src[q] == old_src[q]);
                } else if p == pos {
                    assert(src[q] == old_src[q - 1]);
                } else {
                    assert(src[p] == old_src[p]);
                }
            }
            lemma_insert_keeps_order(old_out, old_src, x, pos as int, i as int);
        }
        i = i + 1;
    }
    assert(stable_newest_first(e, out@, src));
    out
}

/// A listing: the files newest first, at most `LIST_MAX` of them.
pub fn newest_first(entries: Vec<(u64, Received)>) -> (out: Vec<Received>)
    ensures
        exists|src: Seq<int>, sorted: Seq<(u64, Received)>|
            #[trigger] stable_newest_first(entries@, sorted, src) && out@.len() == if sorted.len() > LIST_MAX {
                LIST_MAX as nat
            } else {
                sorted.len()
            } && forall|p: int| 0 <= p < out@.len() ==> #[trigger] out@[p]@ == sorted[p].1@,
{
    let sorted = sort_newest_first(entries);
    let mut out: Vec<Received> = Vec::new();
    let mut i: usize = 0;
    while i < sorted.len() && i < LIST_MAX
        invariant
            i <= sorted.len(),
            i <= LIST_MAX,
            out@.len() == i,
            forall|p: int| 0 <= p < i ==> #[trigger] out@[p]@ == sorted@[p].1@,
        decreases sorted.len() - i,
    {
        out.push(sorted[i].1.duplicate());
        i = i + 1;
    }
    out
}

/// The `Content-Disposition` for a download, quotes dropped from the name.
pub fn attachment_header(name: &str) -> (out: String)
    ensures
        out@ == "attachment; filename=\""@ + replace_all(name@, "\""@, Seq::empty()) + "\""@,
{
    let c = chars_of(name);
    let quote = chars_of("\"");
    proof {
        reveal_strlit("\"");
    }
    let empty: Vec<char> = Vec::new();
    let bare = replace_exec(&c, &quote, &empty);
    let mut v = chars_of("attachment; filename=\"");
    extend_chars(&mut v, &bare);
    extend_str(&mut v, "\"");
    string_of(&v)
}

/// The file a download asks for: the last component of the requested name.
pub fn requested_file(fname: &str) -> (r: Option<String>)
    ensures
        match r {
            Some(n) => crate::net::file_name(fname@) == Some(n@),
            None => crate::net::file_name(fname@) is None,
        },
{
    let c = chars_of(fname);
    match crate::net::file_name_of(&c) {
        Some(n) => Some(string_of(&n)),
        None => None,
    }
}

// ---------------------------------------------------------------------------
// tunnel supervision
// ---------------------------------------------------------------------------

#[derive(Clone, Copy, Debug, PartialEq, Eq, Structural)]
pub enum TunnelStep {
    /// Start `cloudflared`.
    Start,
    /// Stop it if it runs, and forget the public URL.
    Stop,
    /// Leave things as they are.
    Keep,
}

/// What the supervisor does when the tunnel switch reads `enabled`.
pub fn tunnel_step(enabled: bool, running: bool) -> (s: TunnelStep)
    ensures
        s == if enabled && !running {
            TunnelStep::Start
        } else if !enabled {
            TunnelStep::Stop
        } else {
            TunnelStep::Keep
        },
{
    if enabled && !running {
        TunnelStep::Start
    } else if !enabled {
        TunnelStep::Stop
    } else {
        TunnelStep::Keep
    }
}

} // verus!
