//! `drop send`: pushing files or a snippet to another Drop device. The
//! requests themselves are made by the CLI; this module holds what it
//! decides: where the target is, which peer a name means, and what each
//! answer from the receiver amounts to.

use vstd::prelude::*;
use crate::config::DEFAULT_PORT;
use crate::discovery::{labels, Peer};
use crate::net::{file_name, file_name_of};
use crate::text::{
    chars_of, contains, contains_exec, decimal, extend_chars, extend_str, matches_at, matches_at_exec,
    parse_uint, parse_unsigned, push_decimal, slice_chars, split, split_exec, starts_with,
    starts_with_exec, string_of, trim_both, trimmed, views, Trim, chars_eq, lowercase, to_lower,
};

verus! {

/// How long, in seconds, to wait for the receiver to answer an offer.
pub const APPROVAL_WAIT_SECS: u64 = 120;

/// How often, in milliseconds, to ask whether an offer was answered.
pub const POLL_MILLIS: u64 = 700;

/// An IPv4 address in dotted form: four pieces, each a `u8`.
pub open spec fn dotted_quad(h: Seq<char>) -> bool {
    &&& split(h, '.').len() == 4
    &&& forall|i: int| 0 <= i < 4 ==> (parse_unsigned(#[trigger] split(h, '.')[i], 255)) is Some
}

/// The last position at or before `j` where `pat` occurs in `s`.
pub open spec fn last_match_from(s: Seq<char>, pat: Seq<char>, j: int) -> Option<int>
    decreases j + 1,
{
    if j < 0 {
        None
    } else if matches_at(s, pat, j) {
        Some(j)
    } else {
        last_match_from(s, pat, j - 1)
    }
}

/// What follows the last `//` in `s`, or all of `s` (`rsplit("//").next()`).
pub open spec fn after_last_slashes(s: Seq<char>) -> Seq<char> {
    match last_match_from(s, "//"@, s.len() - 2) {
        Some(i) => s.skip(i + 2),
        None => s,
    }
}

/// The `host:port` a target names without asking the network: a target that
/// starts with an IPv4 address or with `http` is used as given, minus any
/// scheme, with the default port added when it has none. A peer name gives
/// `None`.
pub open spec fn direct_target(target: Seq<char>) -> Option<Seq<char>> {
    if dotted_quad(split(target, ':')[0]) || starts_with(target, "http"@) {
        let hp = after_last_slashes(target);
        if contains(hp, ":"@) {
            Some(hp)
        } else {
            Some(hp + ":"@ + decimal(DEFAULT_PORT as nat))
        }
    } else {
        None
    }
}

fn dotted_quad_exec(h: &Vec<char>) -> (r: bool)
    ensures
        r == dotted_quad(h@),
{
    let pieces = split_exec(h, '.');
    if pieces.len() != 4 {
        return false;
    }
    let mut i: usize = 0;
    while i < 4
        invariant
            pieces.len() == 4,
            views(pieces@) == split(h@, '.'),
            i <= 4,
            forall|j: int| 0 <= j < i ==> (parse_unsigned(#[trigger] split(h@, '.')[j], 255)) is Some,
        decreases 4 - i,
    {
        assert(views(pieces@)[i as int] == pieces@[i as int]@);
        if parse_uint(&pieces[i], 255).is_none() {
            return false;
        }
        i = i + 1;
    }
    true
}

fn after_last_slashes_exec(s: &Vec<char>) -> (out: Vec<char>)
    ensures
        out@ == after_last_slashes(s@),
{
    proof {
        reveal_strlit("//");
    }
    let pat = chars_of("//");
    if s.len() < 2 {
        assert(last_match_from(s@, "//"@, s@.len() - 2) is None);
        return s.clone();
    }
    let mut j: usize = s.len() - 2;
    loop
        invariant
            j <= s.len() - 2,
            s.len() >= 2,
            pat@ == "//"@,
            last_match_from(s@, "//"@, s@.len() - 2) == last_match_from(s@, "//"@, j as int),
        decreases j,
    {
        if matches_at_exec(s, &pat, j) {
            return slice_chars(s, j + 2, s.len());
        }
        if j == 0 {
            assert(last_match_from(s@, "//"@, -1) is None);
            return s.clone();
        }
        j = j - 1;
    }
}

/// Where to send for a target given as `host:port`, a bare IP or a URL;
/// `None` for a peer name, which has to be looked up over mDNS.
pub fn direct_hostport(target: &str) -> (r: Option<String>)
    ensures
        match r {
            Some(h) => direct_target(target@) == Some(h@),
            None => direct_target(target@) is None,
        },
{
    proof {
        reveal_strlit(":");
        reveal_strlit("http");
    }
    let t = chars_of(target);
    let first_pieces = split_exec(&t, ':');
    proof {
        crate::text::lemma_split_nonempty(t@, ':', 0);
    }
    assert(views(first_pieces@)[0] == first_pieces@[0]@);
    let numeric = dotted_quad_exec(&first_pieces[0]);
    let http = chars_of("http");
    if !(numeric || starts_with_exec(&t, &http)) {
        return None;
    }
    let hp = after_last_slashes_exec(&t);
    let colon = chars_of(":");
    if contains_exec(&hp, &colon) {
        Some(string_of(&hp))
    } else {
        let mut v = hp.clone();
        extend_str(&mut v, ":");
        push_decimal(&mut v, DEFAULT_PORT as u64);
        Some(string_of(&v))
    }
}

/// The first position `i` from `start` whose label satisfies the test.
pub open spec fn first_label(ls: Seq<Seq<char>>, needle: Seq<char>, exact: bool, start: int) -> Option<int>
    decreases ls.len() - start,
{
    if start < 0 || start >= ls.len() {
        None
    } else if (exact && lowercase(ls[start]) == needle) || (!exact && contains(lowercase(ls[start]), needle)) {
        Some(start)
    } else {
        first_label(ls, needle, exact, start + 1)
    }
}

/// The peer a name means: the first whose label equals it ignoring case, or
/// failing that the first whose label contains it ignoring case.
pub open spec fn peer_match(ls: Seq<Seq<char>>, target: Seq<char>) -> Option<int> {
    match first_label(ls, lowercase(target), true, 0) {
        Some(i) => Some(i),
        None => first_label(ls, lowercase(target), false, 0),
    }
}

proof fn lemma_first_exact(ls: Seq<Seq<char>>, needle: Seq<char>, start: int, w: int)
    requires
        0 <= start <= w < ls.len(),
        lowercase(ls[w]) == needle,
    ensures
        first_label(ls, needle, true, start) matches Some(i) && start <= i <= w && lowercase(ls[i]) == needle
            && forall|k: int| start <= k < i ==> lowercase(ls[k]) != needle,
    decreases w - start,
{
    if lowercase(ls[start]) != needle {
        lemma_first_exact(ls, needle, start + 1, w);
    }
}

proof fn lemma_no_exact(ls: Seq<Seq<char>>, needle: Seq<char>, start: int)
    requires
        0 <= start <= ls.len(),
        forall|k: int| start <= k < ls.len() ==> lowercase(ls[k]) != needle,
    ensures
        first_label(ls, needle, true, start) is None,
    decreases ls.len() - start,
{
    if start < ls.len() {
        lemma_no_exact(ls, needle, start + 1);
    }
}

proof fn lemma_first_partial(ls: Seq<Seq<char>>, needle: Seq<char>, start: int)
    requires
        0 <= start <= ls.len(),
    ensures
        match first_label(ls, needle, false, start) {
            Some(i) => start <= i < ls.len() && contains(lowercase(ls[i]), needle) && forall|k: int|
                start <= k < i ==> !contains(lowercase(ls[k]), needle),
            None => forall|k: int| start <= k < ls.len() ==> !contains(lowercase(ls[k]), needle),
        },
    decreases ls.len() - start,
{
    if start < ls.len() {
        lemma_first_partial(ls, needle, start + 1);
    }
}

/// A name picks the first peer whose label equals it ignoring case; only
/// when no label does, the first whose label contains it ignoring case; and
/// no peer when none does either.
pub proof fn lemma_exact_name_wins(ls: Seq<Seq<char>>, target: Seq<char>)
    ensures
        (exists|i: int| 0 <= i < ls.len() && lowercase(#[trigger] ls[i]) == lowercase(target)) ==> (peer_match(
            ls,
            target,
        ) matches Some(i) && 0 <= i < ls.len() && lowercase(ls[i]) == lowercase(target) && forall|k: int|
            0 <= k < i ==> lowercase(ls[k]) != lowercase(target)),
        (forall|i: int| 0 <= i < ls.len() ==> lowercase(#[trigger] ls[i]) != lowercase(target)) ==> match peer_match(
            ls,
            target,
        ) {
            Some(i) => 0 <= i < ls.len() && contains(lowercase(ls[i]), lowercase(target)) && forall|k: int|
                0 <= k < i ==> !contains(lowercase(ls[k]), lowercase(target)),
            None => forall|k: int| 0 <= k < ls.len() ==> !contains(lowercase(ls[k]), lowercase(target)),
        },
{
    let needle = lowercase(target);
    if exists|i: int| 0 <= i < ls.len() && lowercase(#[trigger] ls[i]) == needle {
        let w = choose|i: int| 0 <= i < ls.len() && lowercase(#[trigger] ls[i]) == needle;
        lemma_first_exact(ls, needle, 0, w);
    } else {
        lemma_no_exact(ls, needle, 0);
        lemma_first_partial(ls, needle, 0);
    }
}

fn first_label_exec(peers: &Vec<Peer>, needle: &Vec<char>, exact: bool) -> (r: Option<usize>)
    ensures
        match r {
            Some(i) => first_label(labels(peers@), needle@, exact, 0) == Some(i as int),
            None => first_label(labels(peers@), needle@, exact, 0) is None,
        },
{
    let mut i: usize = 0;
    while i < peers.len()
        invariant
            i <= peers.len(),
            first_label(labels(peers@), needle@, exact, 0) == first_label(labels(peers@), needle@, exact, i as int),
        decreases peers.len() - i,
    {
        let lower = to_lower(peers[i].label.as_str());
        let lc = chars_of(lower.as_str());
        assert(labels(peers@)[i as int] == peers@[i as int].label@);
        let hit = if exact { chars_eq(&lc, needle) } else { contains_exec(&lc, needle) };
        if hit {
            return Some(i);
        }
        i = i + 1;
    }
    None
}

/// Which peer `target` names, if any.
pub fn find_peer(peers: &Vec<Peer>, target: &str) -> (r: Option<usize>)
    ensures
        match r {
            Some(i) => peer_match(labels(peers@), target@) == Some(i as int),
            None => peer_match(labels(peers@), target@) is None,
        },
{
    let needle = chars_of(to_lower(target).as_str());
    match first_label_exec(peers, &needle, true) {
        Some(i) => Some(i),
        None => first_label_exec(peers, &needle, false),
    }
}

/// `host:port` of a peer.
pub fn peer_address(p: &Peer) -> (out: String)
    ensures
        out@ == p.host@ + ":"@ + decimal(p.port as nat),
{
    let mut v = chars_of(p.host.as_str());
    extend_str(&mut v, ":");
    push_decimal(&mut v, p.port as u64);
    string_of(&v)
}

/// Why a send stopped.
#[derive(Clone, Copy, Debug, PartialEq, Eq, Structural)]
pub enum SendError {
    NoPeer,
    WrongPin,
    NoOfferId,
    TimedOut,
    Declined,
    Expired,
    TooLong,
    NothingToSend,
    Server(u16),
}

/// The reason phrase HTTP gives a status code (`StatusCode::canonical_reason`),
/// if it has one.
pub uninterp spec fn canonical_reason(code: u16) -> Option<Seq<char>>;

/// Calls `StatusCode::from_u16` and `canonical_reason`. Claims the phrase is
/// the named function of the code, and that codes outside `100..=999`,
/// which `from_u16` refuses, have none.
#[verifier::external_body]
fn reason_phrase(code: u16) -> (r: Option<String>)
    ensures
        match r {
            Some(p) => canonical_reason(code) == Some(p@),
            None => canonical_reason(code) is None,
        },
        (code < 100 || code > 999) ==> r is None,
{
    match reqwest::StatusCode::from_u16(code) {
        Ok(s) => s.canonical_reason().map(|p| p.to_owned()),
        Err(_) => None,
    }
}

/// How a status code prints (`StatusCode`'s `Display`): the number, a space
/// and its reason phrase, or `<unknown status code>` for one without.
pub open spec fn status_text(code: u16) -> Seq<char> {
    decimal(code as nat) + " "@ + match canonical_reason(code) {
        Some(p) => p,
        None => "<unknown status code>"@,
    }
}

impl SendError {
    /// What the CLI prints for this error; `target` is what the user asked
    /// to send to. A server error is given by its status as HTTP prints it;
    /// a number no response can carry (outside `100..=999`) by the number.
    pub fn message(&self, target: &str) -> (out: String)
        ensures
            out@ == match *self {
                SendError::NoPeer => "no peer matching '"@ + target@ + "'. try: drop peers"@,
                SendError::WrongPin => "rejected: wrong PIN"@,
                SendError::NoOfferId => "receiver returned no offer id"@,
                SendError::TimedOut => "timed out waiting for a decision"@,
                SendError::Declined => "declined by the receiver"@,
                SendError::Expired => "the offer expired without an answer"@,
                SendError::TooLong => "too long — send it as a file"@,
                SendError::NothingToSend => "nothing to send"@,
                SendError::Server(c) => "server said "@ + if 100 <= c <= 999 {
                    status_text(c)
                } else {
                    decimal(c as nat)
                },
            },
    {
        match self {
            SendError::NoPeer => {
                let mut v = chars_of("no peer matching '");
                extend_str(&mut v, target);
                extend_str(&mut v, "'. try: drop peers");
                string_of(&v)
            },
            SendError::WrongPin => "rejected: wrong PIN".to_owned(),
            SendError::NoOfferId => "receiver returned no offer id".to_owned(),
            SendError::TimedOut => "timed out waiting for a decision".to_owned(),
            SendError::Declined => "declined by the receiver".to_owned(),
            SendError::Expired => "the offer expired without an answer".to_owned(),
            SendError::TooLong => "too long — send it as a file".to_owned(),
            SendError::NothingToSend => "nothing to send".to_owned(),
            SendError::Server(c) => {
                let mut v = chars_of("server said ");
                push_decimal(&mut v, *c as u64);
                if 100 <= *c && *c <= 999 {
                    extend_str(&mut v, " ");
                    match reason_phrase(*c) {
                        Some(p) => extend_str(&mut v, p.as_str()),
                        None => extend_str(&mut v, "<unknown status code>"),
                    }
                }
                string_of(&v)
            },
        }
    }
}

/// Whether a sender may keep waiting for a verdict `elapsed_ms`
/// milliseconds after it started: not once `APPROVAL_WAIT_SECS` are over.
pub fn keep_waiting(elapsed_ms: u64) -> (r: Result<(), SendError>)
    ensures
        r == if elapsed_ms > APPROVAL_WAIT_SECS * 1000 {
            Err::<(), SendError>(SendError::TimedOut)
        } else {
            Ok(())
        },
{
    if elapsed_ms > APPROVAL_WAIT_SECS * 1000 {
        Err(SendError::TimedOut)
    } else {
        Ok(())
    }
}

/// What the receiver's latest answer to an offer means to a waiting sender.
#[derive(Clone, Copy, Debug, PartialEq, Eq, Structural)]
pub enum Poll {
    /// The receiver said yes (for a snippet, also once it is saved).
    Go,
    /// Ask again shortly.
    Wait,
    /// Give up.
    Stop(SendError),
}

/// Reads an offer's `status` field. With `done_counts` a `complete` offer
/// also counts as accepted, as it does for snippets.
pub fn poll_status(status: Option<&str>, done_counts: bool) -> (p: Poll)
    ensures
        p == match status {
            Some(s) => if s@ == "accepted"@ || (done_counts && s@ == "complete"@) {
                Poll::Go
            } else if s@ == "declined"@ {
                Poll::Stop(SendError::Declined)
            } else if s@ == "expired"@ {
                Poll::Stop(SendError::Expired)
            } else {
                Poll::Wait
            },
            None => Poll::Wait,
        },
{
    match status {
        None => Poll::Wait,
        Some(s) => {
            let c = chars_of(s);
            if chars_eq(&c, &chars_of("accepted")) || (done_counts && chars_eq(&c, &chars_of("complete"))) {
                Poll::Go
            } else if chars_eq(&c, &chars_of("declined")) {
                Poll::Stop(SendError::Declined)
            } else if chars_eq(&c, &chars_of("expired")) {
                Poll::Stop(SendError::Expired)
            } else {
                Poll::Wait
            }
        },
    }
}

/// What the receiver's answer to an offer announcement means.
#[derive(Clone, Copy, Debug, PartialEq, Eq, Structural)]
pub enum OfferReply {
    /// Wait for the verdict, then upload against the offer.
    AwaitVerdict,
    /// An older receiver without offers: upload straight away.
    UploadDirectly,
    WrongPin,
}

pub open spec fn offer_reply_for(code: u16) -> OfferReply {
    if code == 401 {
        OfferReply::WrongPin
    } else if 200 <= code < 300 {
        OfferReply::AwaitVerdict
    } else {
        OfferReply::UploadDirectly
    }
}

pub fn offer_reply(code: u16) -> (r: OfferReply)
    ensures
        r == offer_reply_for(code),
{
    if code == 401 {
        OfferReply::WrongPin
    } else if 200 <= code && code < 300 {
        OfferReply::AwaitVerdict
    } else {
        OfferReply::UploadDirectly
    }
}

/// What the receiver's answer to an upload means.
#[derive(Clone, Copy, Debug, PartialEq, Eq, Structural)]
pub enum UploadReply {
    /// Saved; the body lists the names.
    Saved,
    /// Taken into staging; the receiver still has to accept.
    Staged,
    Failed(SendError),
}

pub fn upload_reply(code: u16) -> (r: UploadReply)
    ensures
        r == if code == 401 {
            UploadReply::Failed(SendError::WrongPin)
        } else if code == 202 {
            UploadReply::Staged
        } else if !(200 <= code < 300) {
            UploadReply::Failed(SendError::Server(code))
        } else {
            UploadReply::Saved
        },
{
    if code == 401 {
        UploadReply::Failed(SendError::WrongPin)
    } else if code == 202 {
        UploadReply::Staged
    } else if !(200 <= code && code < 300) {
        UploadReply::Failed(SendError::Server(code))
    } else {
        UploadReply::Saved
    }
}

/// What the receiver's answer to a snippet means.
#[derive(Clone, Copy, Debug, PartialEq, Eq, Structural)]
pub enum TextReply {
    /// Saved at once (approval is off).
    Sent,
    /// Offered; wait for the verdict.
    AwaitVerdict,
    Failed(SendError),
}

pub fn text_reply(code: u16) -> (r: TextReply)
    ensures
        r == if code == 401 {
            TextReply::Failed(SendError::WrongPin)
        } else if code == 413 {
            TextReply::Failed(SendError::TooLong)
        } else if code == 200 {
            TextReply::Sent
        } else if code != 202 {
            TextReply::Failed(SendError::Server(code))
        } else {
            TextReply::AwaitVerdict
        },
{
    if code == 401 {
        TextReply::Failed(SendError::WrongPin)
    } else if code == 413 {
        TextReply::Failed(SendError::TooLong)
    } else if code == 200 {
        TextReply::Sent
    } else if code != 202 {
        TextReply::Failed(SendError::Server(code))
    } else {
        TextReply::AwaitVerdict
    }
}

/// A snippet of only whitespace is not sent.
pub fn worth_sending(text: &str) -> (r: bool)
    ensures
        r == (trim_both(text@, Trim::Space).len() > 0),
{
    let c = chars_of(text);
    trimmed(&c, Trim::Space).len() > 0
}

/// The name a file is announced and uploaded under: its last path
/// component, or `untitled`.
pub fn upload_name(path: &str) -> (out: String)
    ensures
        out@ == match file_name(path@) {
            Some(n) => n,
            None => "untitled"@,
        },
{
    let c = chars_of(path);
    match file_name_of(&c) {
        Some(n) => string_of(&n),
        None => string_of(&chars_of("untitled")),
    }
}

/// `http://{hostport}/api/upload`, with `?offer={id}` for a negotiated upload.
pub fn upload_url(hostport: &str, offer: Option<&str>) -> (out: String)
    ensures
        out@ == "http://"@ + hostport@ + "/api/upload"@ + match offer {
            Some(id) => "?offer="@ + id@,
            None => Seq::empty(),
        },
{
    let mut v = chars_of("http://");
    extend_str(&mut v, hostport);
    extend_str(&mut v, "/api/upload");
    if let Some(id) = offer {
        extend_str(&mut v, "?offer=");
        extend_str(&mut v, id);
    }
    assert(v@ =~= "http://"@ + hostport@ + "/api/upload"@ + match offer {
        Some(id) => "?offer="@ + id@,
        None => Seq::empty(),
    });
    string_of(&v)
}

/// The paths named on the command line, as given.
pub fn expand(raw: &Vec<String>) -> (out: Vec<String>)
    ensures
        out@.len() == raw@.len(),
        forall|i: int| 0 <= i < raw@.len() ==> #[trigger] out@[i]@ == raw@[i]@,
{
    let mut out: Vec<String> = Vec::new();
    let mut i: usize = 0;
    while i < raw.len()
        invariant
            i <= raw.len(),
            out@.len() == i,
            forall|j: int| 0 <= j < i ==> #[trigger] out@[j]@ == raw@[j]@,
        decreases raw.len() - i,
    {
        out.push(raw[i].clone());
        i = i + 1;
    }
    out
}

} // verus!
