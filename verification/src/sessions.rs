//! Who is signed in from a browser right now.
//!
//! Separate from transfers on purpose: a phone is "connected" the moment it
//! gets past the PIN, not when it sends something.

use vstd::prelude::*;
use crate::table::Table;
use crate::text::{chars_of, extend_str, string_of, trim_both, trimmed, Trim};

verus! {

/// A device stays listed while it keeps making authorised requests. The page
/// polls every 2.5 s, so this is many missed polls, not a tight timeout.
pub const STALE_SECS: u64 = 75;

#[derive(Clone, Debug)]
pub struct Session {
    /// What the browser calls itself: "iPhone", "Mac", and so on.
    pub device: String,
    pub ip: String,
    /// When the PIN was accepted.
    pub since: u64,
    /// Last authorised request.
    pub seen: u64,
}

pub struct SessionView {
    pub device: Seq<char>,
    pub ip: Seq<char>,
    pub since: u64,
    pub seen: u64,
}

impl View for Session {
    type V = SessionView;

    open spec fn view(&self) -> SessionView {
        SessionView { device: self.device@, ip: self.ip@, since: self.since, seen: self.seen }
    }
}

impl Session {
    /// A copy with the same contents.
    pub fn duplicate(&self) -> (r: Session)
        ensures
            r@ == self@,
    {
        Session {
            device: self.device.clone(),
            ip: self.ip.clone(),
            since: self.since,
            seen: self.seen,
        }
    }
}

/// `a - b`, or 0 when `b` is larger (`u64::saturating_sub`).
pub open spec fn sat_sub(a: nat, b: nat) -> nat {
    if a >= b { (a - b) as nat } else { 0 }
}

/// Seen within the last `STALE_SECS` seconds.
pub open spec fn is_live(s: SessionView, now: nat) -> bool {
    sat_sub(now, s.seen as nat) <= STALE_SECS
}

/// What a device is called: its own trimmed name, or its address when it gave
/// none or only whitespace.
pub open spec fn display_name(device: Option<Seq<char>>, ip: Seq<char>) -> Seq<char> {
    match device {
        Some(d) if trim_both(d, Trim::Space).len() > 0 => trim_both(d, Trim::Space),
        _ => "Device at "@ + ip,
    }
}

/// The name to show for a device.
pub fn name_for(device: Option<String>, ip: &str) -> (name: String)
    ensures
        name@ == display_name(
            match device {
                Some(d) => Some(d@),
                None => None,
            },
            ip@,
        ),
{
    if let Some(d) = device {
        let dc = chars_of(d.as_str());
        let t = trimmed(&dc, Trim::Space);
        if t.len() > 0 {
            return string_of(&t);
        }
    }
    let mut v: Vec<char> = Vec::new();
    extend_str(&mut v, "Device at ");
    extend_str(&mut v, ip);
    string_of(&v)
}

pub struct Registry {
    map: Table<Session>,
}

impl Default for Registry {
    fn default() -> (r: Self)
        ensures
            r@ == Map::<Seq<char>, SessionView>::empty(),
    {
        Registry::new()
    }
}

impl View for Registry {
    type V = Map<Seq<char>, SessionView>;

    closed spec fn view(&self) -> Map<Seq<char>, SessionView> {
        self.map.view().map_values(|s: Session| s@)
    }
}

/// The record after `touch`: a listed device is marked seen at `now`, and
/// renamed when it sends a name that is not blank.
pub open spec fn touched(st: Map<Seq<char>, SessionView>, ip: Seq<char>, device: Option<Seq<char>>, now: u64) -> Map<Seq<char>, SessionView> {
    if st.contains_key(ip) {
        let s = st[ip];
        let name = match device {
            Some(d) if trim_both(d, Trim::Space).len() > 0 => d,
            _ => s.device,
        };
        st.insert(ip, SessionView { device: name, ip: s.ip, since: s.since, seen: now })
    } else {
        st
    }
}

impl Registry {
    #[verifier::type_invariant]
    spec fn inv(self) -> bool {
        &&& self.map.wf()
        &&& forall|i: int|
            0 <= i < self.map.key_seq().len() ==> (#[trigger] self.map.val_seq()[i]).ip@
                == self.map.key_seq()[i]
    }

    pub fn new() -> (r: Self)
        ensures
            r@ == Map::<Seq<char>, SessionView>::empty(),
    {
        let r = Registry { map: Table::new() };
        assert(r@ =~= Map::<Seq<char>, SessionView>::empty());
        r
    }

    /// The PIN was accepted from `ip` at `now`. Returns true when this device
    /// was not already listed as connected, so the caller announces it once.
    pub fn open(&mut self, ip: &str, device: Option<String>, now: u64) -> (fresh: bool)
        ensures
            ({
                let name = display_name(
                    match device {
                        Some(d) => Some(d@),
                        None => None,
                    },
                    ip@,
                );
                if old(self)@.contains_key(ip@) && is_live(old(self)@[ip@], now as nat) {
                    &&& !fresh
                    &&& final(self)@ == old(self)@.insert(
                        ip@,
                        SessionView {
                            device: name,
                            ip: ip@,
                            since: old(self)@[ip@].since,
                            seen: now,
                        },
                    )
                } else {
                    &&& fresh
                    &&& final(self)@ == old(self)@.insert(
                        ip@,
                        SessionView { device: name, ip: ip@, since: now, seen: now },
                    )
                }
            }),
    {
        proof {
            use_type_invariant(&*self);
        }
        let name = name_for(device, ip);
        let key = ip.to_owned();
        let mut t: Table<Session> = Table::new();
        std::mem::swap(&mut t, &mut self.map);
        let fresh = match t.find(&key) {
            Some(i) => {
                proof {
                    t.lemma_entry(i as int);
                }
                let s = t.val_at(i);
                let gap: u64 = if now >= s.seen { now - s.seen } else { 0 };
                if gap <= STALE_SECS {
                    let ns = Session { device: name, ip: key, since: s.since, seen: now };
                    t.set_at(i, ns);
                    false
                } else {
                    let ns = Session { device: name, ip: key, since: now, seen: now };
                    t.set_at(i, ns);
                    true
                }
            },
            None => {
                let ns = Session { device: name, ip: key.clone(), since: now, seen: now };
                t.push(key, ns);
                true
            },
        };
        self.map = t;
        proof {
            assert(self@ =~= if fresh {
                old(self)@.insert(ip@, SessionView { device: name@, ip: ip@, since: now, seen: now })
            } else {
                old(self)@.insert(
                    ip@,
                    SessionView { device: name@, ip: ip@, since: old(self)@[ip@].since, seen: now },
                )
            });
        }
        fresh
    }

    /// Keeps a session alive; called on the page's own polling.
    pub fn touch(&mut self, ip: &str, device: Option<String>, now: u64)
        ensures
            final(self)@ == touched(
                old(self)@,
                ip@,
                match device {
                    Some(d) => Some(d@),
                    None => None,
                },
                now,
            ),
    {
        proof {
            use_type_invariant(&*self);
        }
        let key = ip.to_owned();
        let mut t: Table<Session> = Table::new();
        std::mem::swap(&mut t, &mut self.map);
        match t.find(&key) {
            Some(i) => {
                proof {
                    t.lemma_entry(i as int);
                }
                let s = t.val_at(i).duplicate();
                let rename = match &device {
                    Some(d) => {
                        let dc = chars_of(d.as_str());
                        trimmed(&dc, Trim::Space).len() > 0
                    },
                    None => false,
                };
                let name = if rename {
                    match device {
                        Some(d) => d,
                        None => s.device,
                    }
                } else {
                    s.device
                };
                let ns = Session { device: name, ip: s.ip, since: s.since, seen: now };
                t.set_at(i, ns);
            },
            None => {},
        }
        self.map = t;
        proof {
            assert(self@ =~= touched(
                old(self)@,
                ip@,
                match device {
                    Some(d) => Some(d@),
                    None => None,
                },
                now,
            ));
        }
    }

    /// Everyone still connected at `now`, most recently seen first.
    pub fn live(&self, now: u64) -> (out: Vec<Session>)
        ensures
            forall|p: int|
                0 <= p < out.len() ==> {
                    &&& self@.contains_key(#[trigger] out@[p]@.ip)
                    &&& self@[out@[p]@.ip] == out@[p]@
                    &&& is_live(out@[p]@, now as nat)
                },
            forall|k: Seq<char>|
                self@.contains_key(k) && is_live(#[trigger] self@[k], now as nat) ==> exists|p: int|
                    0 <= p < out.len() && #[trigger] out@[p]@.ip == k,
            forall|p: int, q: int| 0 <= p < q < out.len() ==> out@[p]@.ip != out@[q]@.ip,
            forall|p: int, q: int| 0 <= p < q < out.len() ==> out@[p].seen >= out@[q].seen,
    {
        proof {
            use_type_invariant(self);
        }
        let n = self.map.len();
        let mut out: Vec<Session> = Vec::new();
        let ghost mut src: Seq<int> = Seq::empty();
        let mut i: usize = 0;
        while i < n
            invariant
                n == self.map.key_seq().len(),
                self.map.wf(),
                forall|j: int|
                    0 <= j < self.map.key_seq().len() ==> (#[trigger] self.map.val_seq()[j]).ip@
                        == self.map.key_seq()[j],
                i <= n,
                out.len() == src.len(),
                forall|p: int|
                    0 <= p < src.len() ==> 0 <= #[trigger] src[p] < i && out@[p]@
                        == self.map.val_seq()[src[p]]@ && is_live(out@[p]@, now as nat),
                forall|p: int, q: int| 0 <= p < q < src.len() ==> src[p] != src[q],
                forall|j: int|
                    0 <= j < i && is_live(#[trigger] self.map.val_seq()[j]@, now as nat)
                        ==> src.contains(j),
                forall|p: int, q: int| 0 <= p < q < out.len() ==> out@[p].seen >= out@[q].seen,
            decreases n - i,
        {
            let s = self.map.val_at(i);
            let gap: u64 = if now >= s.seen { now - s.seen } else { 0 };
            if gap <= STALE_SECS {
                let mut pos: usize = 0;
                while pos < out.len() && out[pos].seen >= s.seen
                    invariant
                        pos <= out.len(),
                        forall|q: int| 0 <= q < pos ==> out@[q].seen >= s.seen,
                    decreases out.len() - pos,
                {
                    pos = pos + 1;
                }
                let ghost old_out = out@;
                let ghost old_src = src;
                out.insert(pos, s.duplicate());
                proof {
                    src = src.insert(pos as int, i as int);
                    assert forall|p: int| 0 <= p < src.len() implies 0 <= #[trigger] src[p] < i + 1
                        && out@[p]@ == self.map.val_seq()[src[p]]@ && is_live(out@[p]@, now as nat) by {
                        if p < pos {
                            assert(src[p] == old_src[p] && out@[p] == old_out[p]);
                        } else if p > pos {
                            assert(src[p] == old_src[p - 1] && out@[p] == old_out[p - 1]);
                        }
                    }
                    assert forall|p: int, q: int| 0 <= p < q < src.len() implies src[p] != src[q] by {
                        if p < pos && q > pos {
                            assert(src[q] == old_src[q - 1]);
                        } else if p > pos {
                            assert(src[p] == old_src[p - 1] && src[q] == old_src[q - 1]);
                        } else if q < pos {
                            assert(src[p] == old_src[p] && src[q] == old_src[q]);
                        } else if p == pos {
                            assert(src[q] == old_src[q - 1]);
                        } else {
                            assert(src[p] == old_src[p]);
                        }
                    }
                    assert forall|p: int, q: int| 0 <= p < q < out.len() implies out@[p].seen
                        >= out@[q].seen by {
                        if pos < old_out.len() {
                            assert(old_out[pos as int].seen < s.seen);
                        }
                        if q > pos as int && p < pos as int {
                            assert(old_out[p].seen >= old_out[q - 1].seen || p == q - 1);
                        }
                        if q > pos as int && p == pos as int && q - 1 > pos as int {
                            assert(old_out[pos as int].seen >= old_out[q - 1].seen);
                        }
                    }
                    assert forall|j: int|
                        0 <= j < i + 1 && is_live(#[trigger] self.map.val_seq()[j]@, now as nat)
                            implies src.contains(j) by {
                        if j == i {
                            assert(src[pos as int] == i);
                        } else {
                            assert(old_src.contains(j));
                            let p = choose|p: int| 0 <= p < old_src.len() && old_src[p] == j;
                            if p < pos {
                                assert(src[p] == j);
                            } else {
                                assert(src[p + 1] == j);
                            }
                        }
                    }
                }
            } else {
                proof {
                    assert forall|j: int|
                        0 <= j < i + 1 && is_live(#[trigger] self.map.val_seq()[j]@, now as nat)
                            implies src.contains(j) by {
                        if j == i {
                            assert(!is_live(self.map.val_seq()[j]@, now as nat));
                        }
                    }
                }
            }
            i = i + 1;
        }
        proof {
            assert forall|p: int| 0 <= p < out.len() implies {
                &&& self@.contains_key(#[trigger] out@[p]@.ip)
                &&& self@[out@[p]@.ip] == out@[p]@
                &&& is_live(out@[p]@, now as nat)
            } by {
                self.map.lemma_entry(src[p]);
            }
            assert forall|k: Seq<char>|
                self@.contains_key(k) && is_live(#[trigger] self@[k], now as nat) implies exists|p: int|
                0 <= p < out.len() && #[trigger] out@[p]@.ip == k by {
                self.map.lemma_key(k);
                let j = self.map.index_of_key(k);
                self.map.lemma_entry(j);
                assert(src.contains(j));
                let p = choose|p: int| 0 <= p < src.len() && src[p] == j;
                assert(out@[p]@.ip == k);
            }
            assert forall|p: int, q: int| 0 <= p < q < out.len() implies out@[p]@.ip != out@[q]@.ip by {
                assert(src[p] != src[q]);
                if src[p] < src[q] {
                    assert(self.map.key_seq()[src[p]] != self.map.key_seq()[src[q]]);
                } else {
                    assert(self.map.key_seq()[src[q]] != self.map.key_seq()[src[p]]);
                }
            }
        }
        out
    }

    /// Forgets anything silent for more than four times the stale window, so
    /// the record does not grow forever.
    pub fn sweep(&mut self, now: u64)
        ensures
            final(self)@ == old(self)@.filter_keys(
                |k: Seq<char>| sat_sub(now as nat, old(self)@[k].seen as nat) <= 4 * STALE_SECS,
            ),
    {
        proof {
            use_type_invariant(&*self);
        }
        let mut kept: Table<Session> = Table::new();
        let n = self.map.len();
        let mut i: usize = 0;
        while i < n
            invariant
                n == self.map.key_seq().len(),
                self.map.wf(),
                forall|j: int|
                    0 <= j < self.map.key_seq().len() ==> (#[trigger] self.map.val_seq()[j]).ip@
                        == self.map.key_seq()[j],
                i <= n,
                kept.wf(),
                forall|j: int|
                    0 <= j < kept.key_seq().len() ==> (#[trigger] kept.val_seq()[j]).ip@
                        == kept.key_seq()[j],
                forall|k: Seq<char>|
                    #[trigger] kept.view().contains_key(k) ==> exists|j: int|
                        0 <= j < i && self.map.key_seq()[j] == k,
                forall|j: int|
                    0 <= j < i ==> (kept.view().contains_key(#[trigger] self.map.key_seq()[j]) <==> sat_sub(
                        now as nat,
                        self.map.val_seq()[j].seen as nat,
                    ) <= 4 * STALE_SECS),
                forall|j: int|
                    0 <= j < i && kept.view().contains_key(#[trigger] self.map.key_seq()[j])
                        ==> kept.view()[self.map.key_seq()[j]]@ == self.map.val_seq()[j]@,
            decreases n - i,
        {
            let s = self.map.val_at(i);
            let gap: u64 = if now >= s.seen { now - s.seen } else { 0 };
            proof {
                self.map.lemma_entry(i as int);
            }
            let ghost before = kept.view();
            if gap <= 4 * STALE_SECS {
                let k = self.map.key_at(i).clone();
                proof {
                    if kept.view().contains_key(k@) {
                        let j = choose|j: int| 0 <= j < i && self.map.key_seq()[j] == k@;
                        assert(self.map.key_seq()[j] != self.map.key_seq()[i as int]);
                    }
                }
                kept.push(k, s.duplicate());
                proof {
                    assert forall|j: int|
                        0 <= j < kept.key_seq().len() implies (#[trigger] kept.val_seq()[j]).ip@
                            == kept.key_seq()[j] by {
                        if j == kept.key_seq().len() - 1 {
                        }
                    }
                }
            }
            proof {
                assert forall|k: Seq<char>|
                    #[trigger] kept.view().contains_key(k) implies exists|j: int|
                        0 <= j < i + 1 && self.map.key_seq()[j] == k by {
                    if before.contains_key(k) {
                        let j = choose|j: int| 0 <= j < i && self.map.key_seq()[j] == k;
                        assert(0 <= j < i + 1);
                    } else {
                        assert(self.map.key_seq()[i as int] == k);
                    }
                }
                assert forall|j: int|
                    0 <= j < i + 1 implies (kept.view().contains_key(#[trigger] self.map.key_seq()[j])
                        <==> sat_sub(now as nat, self.map.val_seq()[j].seen as nat) <= 4 * STALE_SECS) by {
                    if j < i {
                        assert(self.map.key_seq()[j] != self.map.key_seq()[i as int]);
                    }
                }
                assert forall|j: int|
                    0 <= j < i + 1 && kept.view().contains_key(#[trigger] self.map.key_seq()[j])
                        implies kept.view()[self.map.key_seq()[j]]@ == self.map.val_seq()[j]@ by {
                    if j < i {
                        assert(self.map.key_seq()[j] != self.map.key_seq()[i as int]);
                    }
                }
            }
            i = i + 1;
        }
        let ghost old_view = self@;
        self.map = kept;
        proof {
            let target = old(self)@.filter_keys(
                |k: Seq<char>| sat_sub(now as nat, old(self)@[k].seen as nat) <= 4 * STALE_SECS,
            );
            assert forall|k: Seq<char>| #[trigger] self@.contains_key(k) == target.contains_key(k) by {
                if self@.contains_key(k) {
                    let j = choose|j: int| 0 <= j < n && old(self).map.key_seq()[j] == k;
                    old(self).map.lemma_entry(j);
                }
                if target.contains_key(k) {
                    old(self).map.lemma_key(k);
                    let j = old(self).map.index_of_key(k);
                    old(self).map.lemma_entry(j);
                }
            }
            assert forall|k: Seq<char>| self@.contains_key(k) implies self@[k] == target[k] by {
                let j = choose|j: int| 0 <= j < n && old(self).map.key_seq()[j] == k;
                old(self).map.lemma_entry(j);
            }
            assert(self@ =~= target);
        }
    }
}

/// A device is listed as connected right after its PIN is accepted, whether
/// or not it was listed before.
pub proof fn lemma_opened_is_live(st: Map<Seq<char>, SessionView>, ip: Seq<char>, v: SessionView, now: u64)
    requires
        v.seen == now,
    ensures
        st.insert(ip, v).contains_key(ip),
        is_live(st.insert(ip, v)[ip], now as nat),
{
}

/// A device that polls keeps being listed: a touch at `now` leaves a listed
/// device live at `now`.
pub proof fn lemma_touch_keeps_alive(
    st: Map<Seq<char>, SessionView>,
    ip: Seq<char>,
    device: Option<Seq<char>>,
    now: u64,
)
    requires
        st.contains_key(ip),
    ensures
        touched(st, ip, device, now).contains_key(ip),
        is_live(touched(st, ip, device, now)[ip], now as nat),
{
}

/// Sweeping never forgets a device that is still listed as connected.
pub proof fn lemma_sweep_keeps_live(st: Map<Seq<char>, SessionView>, k: Seq<char>, now: nat)
    requires
        st.contains_key(k),
        is_live(st[k], now),
    ensures
        st.filter_keys(|q: Seq<char>| sat_sub(now, st[q].seen as nat) <= 4 * STALE_SECS).contains_key(k),
{
}

} // verus!
