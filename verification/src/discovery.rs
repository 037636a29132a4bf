//! mDNS: what this device advertises, and the list of other Drop devices
//! kept from what the browser hears. The daemon itself runs outside; it hands
//! each event it sees to `PeerTable::apply`.

use vstd::prelude::*;
use crate::table::Table;
use crate::text::{alnum, alphanumeric, chars_of, extend_str, lowercase, string_of, to_lower};

verus! {

/// A device advertising itself over mDNS.
#[derive(Clone, Debug)]
pub struct Peer {
    pub label: String,
    pub host: String,
    pub port: u16,
}

pub struct PeerView {
    pub label: Seq<char>,
    pub host: Seq<char>,
    pub port: u16,
}

impl View for Peer {
    type V = PeerView;

    open spec fn view(&self) -> PeerView {
        PeerView { label: self.label@, host: self.host@, port: self.port }
    }
}

impl Peer {
    /// A copy with the same contents.
    pub fn duplicate(&self) -> (r: Peer)
        ensures
            r@ == self@,
    {
        Peer { label: self.label.clone(), host: self.host.clone(), port: self.port }
    }
}

pub open spec fn labels(peers: Seq<Peer>) -> Seq<Seq<char>> {
    peers.map_values(|p: Peer| p.label@)
}

// ---------------------------------------------------------------------------
// advertising
// ---------------------------------------------------------------------------

/// Each character of `name` that is not alphanumeric becomes `-`.
pub open spec fn host_safe(name: Seq<char>) -> Seq<char> {
    name.map_values(|c: char| if alnum(c) { c } else { '-' })
}

/// The host name this device advertises: `<name>-drop.local.`, never the
/// plain `<name>.local.`, which Avahi already owns on most Linux machines.
pub fn host_label(name: &str) -> (out: String)
    ensures
        out@ == host_safe(name@) + "-drop.local."@,
{
    let c = chars_of(name);
    let mut v: Vec<char> = Vec::new();
    let mut i: usize = 0;
    while i < c.len()
        invariant
            i <= c.len(),
            c@ == name@,
            v@ == host_safe(name@).take(i as int),
        decreases c.len() - i,
    {
        let ch = c[i];
        if alphanumeric(ch) {
            v.push(ch);
        } else {
            v.push('-');
        }
        assert(host_safe(name@).take(i + 1) =~= host_safe(name@).take(i as int).push(
            if alnum(ch) { ch } else { '-' },
        ));
        i = i + 1;
    }
    assert(host_safe(name@).take(c.len() as int) =~= host_safe(name@));
    extend_str(&mut v, "-drop.local.");
    string_of(&v)
}

/// The TXT properties this device advertises.
pub fn advert_properties(name: &str) -> (props: Vec<(String, String)>)
    ensures
        props@.len() == 3,
        props@[0].0@ == "name"@ && props@[0].1@ == name@,
        props@[1].0@ == "os"@ && props@[1].1@ == "linux"@,
        props@[2].0@ == "v"@ && props@[2].1@ == "2"@,
{
    let mut props: Vec<(String, String)> = Vec::new();
    props.push(("name".to_owned(), name.to_owned()));
    props.push(("os".to_owned(), "linux".to_owned()));
    props.push(("v".to_owned(), "2".to_owned()));
    props
}

// ---------------------------------------------------------------------------
// browsing
// ---------------------------------------------------------------------------

/// What the browser reports, reduced to what the list needs.
pub enum PeerEvent {
    /// A service was resolved: its full name, its `name` property if it has
    /// one, its addresses (each with whether it is IPv4) and its port.
    Resolved { fullname: String, name: Option<String>, addresses: Vec<(bool, String)>, port: u16 },
    /// A service went away.
    Removed { fullname: String },
    /// Anything else the browser says.
    Other,
}

pub open spec fn addr_views(addrs: Seq<(bool, String)>) -> Seq<(bool, Seq<char>)> {
    addrs.map_values(|a: (bool, String)| (a.0, a.1@))
}

/// The position of the first IPv4 address at or after `start`.
pub open spec fn first_v4(addrs: Seq<(bool, Seq<char>)>, start: int) -> Option<int>
    decreases addrs.len() - start,
{
    if start < 0 || start >= addrs.len() {
        None
    } else if addrs[start].0 {
        Some(start)
    } else {
        first_v4(addrs, start + 1)
    }
}

/// The label a resolved service is listed under: its `name` property, or
/// its full name when it has none.
pub open spec fn resolved_label(fullname: Seq<char>, name: Option<Seq<char>>) -> Seq<char> {
    match name {
        Some(n) => n,
        None => fullname,
    }
}

/// The list after a resolved service: it is listed under its full name,
/// unless it is this device itself or has no IPv4 address.
pub open spec fn after_resolved(
    peers: Map<Seq<char>, PeerView>,
    fullname: Seq<char>,
    name: Option<Seq<char>>,
    addrs: Seq<(bool, Seq<char>)>,
    port: u16,
    exclude: Seq<char>,
) -> Map<Seq<char>, PeerView> {
    let label = resolved_label(fullname, name);
    if label == exclude {
        peers
    } else {
        match first_v4(addrs, 0) {
            Some(j) => peers.insert(fullname, PeerView { label, host: addrs[j].1, port }),
            None => peers,
        }
    }
}

proof fn lemma_first_v4(addrs: Seq<(bool, Seq<char>)>, start: int)
    requires
        0 <= start <= addrs.len(),
    ensures
        match first_v4(addrs, start) {
            Some(j) => start <= j < addrs.len() && addrs[j].0 && forall|k: int| start <= k < j ==> !addrs[k].0,
            None => forall|k: int| start <= k < addrs.len() ==> !addrs[k].0,
        },
    decreases addrs.len() - start,
{
    if start < addrs.len() && !addrs[start].0 {
        lemma_first_v4(addrs, start + 1);
    }
}

/// What browsing does with a resolved service: unless it is this device or
/// has no IPv4 address, it is listed under its full name with its `name`
/// property (or full name) as label, its first IPv4 address as host and
/// the port it advertised; every other entry stays as it was.
pub proof fn lemma_resolved_is_listed(
    peers: Map<Seq<char>, PeerView>,
    fullname: Seq<char>,
    name: Option<Seq<char>>,
    addrs: Seq<(bool, Seq<char>)>,
    port: u16,
    exclude: Seq<char>,
)
    ensures
        ({
            let r = after_resolved(peers, fullname, name, addrs, port, exclude);
            let label = match name {
                Some(n) => n,
                None => fullname,
            };
            &&& (label == exclude || forall|k: int| 0 <= k < addrs.len() ==> !(#[trigger] addrs[k]).0) ==> r == peers
            &&& (label != exclude && exists|k: int| 0 <= k < addrs.len() && (#[trigger] addrs[k]).0) ==> {
                &&& r.contains_key(fullname)
                &&& r[fullname].label == label
                &&& r[fullname].port == port
                &&& exists|j: int|
                    0 <= j < addrs.len() && (#[trigger] addrs[j]).0 && r[fullname].host == addrs[j].1 && forall|k: int|
                        0 <= k < j ==> !addrs[k].0
                &&& forall|k: Seq<char>| k != fullname ==> r.contains_key(k) == peers.contains_key(k) && (
                    peers.contains_key(k) ==> r[k] == peers[k])
            }
        }),
{
    lemma_first_v4(addrs, 0);
}

pub open spec fn opt_view(o: Option<String>) -> Option<Seq<char>> {
    match o {
        Some(s) => Some(s@),
        None => None,
    }
}

fn first_v4_exec(addrs: &Vec<(bool, String)>) -> (r: Option<usize>)
    ensures
        match r {
            Some(j) => first_v4(addr_views(addrs@), 0) == Some(j as int) && j < addrs@.len(),
            None => first_v4(addr_views(addrs@), 0) is None,
        },
{
    let ghost av = addr_views(addrs@);
    let mut j: usize = 0;
    while j < addrs.len()
        invariant
            j <= addrs.len(),
            av == addr_views(addrs@),
            first_v4(av, 0) == first_v4(av, j as int),
        decreases addrs.len() - j,
    {
        assert(av[j as int].0 == addrs@[j as int].0);
        if addrs[j].0 {
            return Some(j);
        }
        j = j + 1;
    }
    None
}

/// The devices heard so far, by full service name.
pub struct PeerTable {
    map: Table<Peer>,
}

impl View for PeerTable {
    type V = Map<Seq<char>, PeerView>;

    closed spec fn view(&self) -> Map<Seq<char>, PeerView> {
        self.map.view().map_values(|p: Peer| p@)
    }
}

impl Default for PeerTable {
    fn default() -> (r: Self)
        ensures
            r@ == Map::<Seq<char>, PeerView>::empty(),
    {
        PeerTable::new()
    }
}

impl PeerTable {
    #[verifier::type_invariant]
    spec fn inv(self) -> bool {
        self.map.wf()
    }

    pub fn new() -> (r: Self)
        ensures
            r@ == Map::<Seq<char>, PeerView>::empty(),
    {
        let r = PeerTable { map: Table::new() };
        assert(r@ =~= Map::<Seq<char>, PeerView>::empty());
        r
    }

    /// Lists or refreshes `fullname`.
    fn put(&mut self, fullname: String, p: Peer)
        ensures
            final(self)@ == old(self)@.insert(fullname@, p@),
    {
        proof {
            use_type_invariant(&*self);
        }
        let ghost k = fullname@;
        let ghost pv = p@;
        let mut t: Table<Peer> = Table::new();
        std::mem::swap(&mut t, &mut self.map);
        match t.find(&fullname) {
            Some(i) => {
                proof {
                    t.lemma_entry(i as int);
                }
                t.set_at(i, p);
            },
            None => {
                t.push(fullname, p);
            },
        }
        self.map = t;
        assert(self@ =~= old(self)@.insert(k, pv));
    }

    /// Unlists `fullname`, if it is listed.
    fn drop_name(&mut self, fullname: &String)
        ensures
            final(self)@ == old(self)@.remove(fullname@),
    {
        proof {
            use_type_invariant(&*self);
        }
        let mut t: Table<Peer> = Table::new();
        std::mem::swap(&mut t, &mut self.map);
        match t.find(fullname) {
            Some(i) => {
                proof {
                    t.lemma_entry(i as int);
                }
                t.remove_at(i);
            },
            None => {},
        }
        self.map = t;
        assert(self@ =~= old(self)@.remove(fullname@));
    }

    /// Takes in one event from the browser; `exclude` is this device's own
    /// name, which never lists itself.
    pub fn apply(&mut self, ev: PeerEvent, exclude: &str)
        ensures
            match ev {
                PeerEvent::Resolved { fullname, name, addresses, port } => final(self)@ == after_resolved(
                    old(self)@,
                    fullname@,
                    opt_view(name),
                    addr_views(addresses@),
                    port,
                    exclude@,
                ),
                PeerEvent::Removed { fullname } => final(self)@ == old(self)@.remove(fullname@),
                PeerEvent::Other => final(self)@ == old(self)@,
            },
    {
        match ev {
            PeerEvent::Resolved { fullname, name, addresses, port } => {
                let label = match name {
                    Some(n) => n,
                    None => fullname.clone(),
                };
                let lc = chars_of(label.as_str());
                let ec = chars_of(exclude);
                if crate::text::chars_eq(&lc, &ec) {
                    return;
                }
                match first_v4_exec(&addresses) {
                    Some(j) => {
                        assert(addr_views(addresses@)[j as int].1 == addresses@[j as int].1@);
                        let host = addresses[j].1.clone();
                        self.put(fullname, Peer { label, host, port });
                    },
                    None => {},
                }
            },
            PeerEvent::Removed { fullname } => {
                self.drop_name(&fullname);
            },
            PeerEvent::Other => {},
        }
    }

    /// Every listed device once, in no particular order.
    pub fn peers(&self) -> (out: Vec<Peer>)
        ensures
            exists|ks: Seq<Seq<char>>|
                {
                    &&& ks.len() == out@.len()
                    &&& ks.no_duplicates()
                    &&& ks.to_set() == self@.dom()
                    &&& forall|i: int| 0 <= i < ks.len() ==> (#[trigger] out@[i])@ == self@[ks[i]]
                },
    {
        proof {
            use_type_invariant(self);
        }
        let n = self.map.len();
        let mut out: Vec<Peer> = Vec::new();
        let mut i: usize = 0;
        while i < n
            invariant
                self.map.wf(),
                n == self.map.key_seq().len(),
                i <= n,
                out@.len() == i,
                forall|p: int| 0 <= p < i ==> (#[trigger] out@[p])@ == self.map.val_seq()[p]@,
            decreases n - i,
        {
            out.push(self.map.val_at(i).duplicate());
            i = i + 1;
        }
        proof {
            let ks = self.map.key_seq();
            assert forall|p: int| 0 <= p < ks.len() implies (#[trigger] out@[p])@ == self@[ks[p]] by {
                self.map.lemma_entry(p);
            }
            assert forall|a: int, b: int| 0 <= a < ks.len() && 0 <= b < ks.len() && a != b implies ks[a]
                != ks[b] by {
                if a > b {
                    assert(ks[b] != ks[a]);
                }
            }
            assert(ks.no_duplicates());
            assert forall|k: Seq<char>| #[trigger] ks.to_set().contains(k) == self@.dom().contains(k) by {
                if ks.to_set().contains(k) {
                    let p = ks.index_of(k);
                    self.map.lemma_entry(p);
                }
                if self@.dom().contains(k) {
                    self.map.lemma_key(k);
                    assert(ks.contains(k));
                }
            }
            assert(ks.to_set() =~= self@.dom());
        }
        out
    }
}

// ---------------------------------------------------------------------------
// ordering
// ---------------------------------------------------------------------------

/// `a` sorts at or before `b`: character by character, by code point, a
/// prefix first. This is how `String`'s `Ord` compares, since UTF-8 keeps
/// code-point order byte by byte.
pub open spec fn lex_le(a: Seq<char>, b: Seq<char>) -> bool
    decreases a.len(),
{
    if a.len() == 0 {
        true
    } else if b.len() == 0 {
        false
    } else if a[0] != b[0] {
        (a[0] as u32) < (b[0] as u32)
    } else {
        lex_le(a.drop_first(), b.drop_first())
    }
}

/// Any two sequences are ordered one way or the other.
pub proof fn lemma_lex_total(a: Seq<char>, b: Seq<char>)
    ensures
        lex_le(a, b) || lex_le(b, a),
    decreases a.len(),
{
    if a.len() > 0 && b.len() > 0 && a[0] == b[0] {
        lemma_lex_total(a.drop_first(), b.drop_first());
    } else if a.len() > 0 && b.len() > 0 {
        vstd::utf8::char_u32_cast(a[0], a[0] as u32);
        vstd::utf8::char_u32_cast(b[0], b[0] as u32);
    }
}

/// The order is transitive.
pub proof fn lemma_lex_trans(a: Seq<char>, b: Seq<char>, c: Seq<char>)
    requires
        lex_le(a, b),
        lex_le(b, c),
    ensures
        lex_le(a, c),
    decreases a.len(),
{
    if a.len() > 0 && b.len() > 0 && c.len() > 0 && a[0] == b[0] && b[0] == c[0] {
        lemma_lex_trans(a.drop_first(), b.drop_first(), c.drop_first());
    }
}

fn lex_le_exec(a: &Vec<char>, b: &Vec<char>) -> (r: bool)
    ensures
        r == lex_le(a@, b@),
{
    let mut i: usize = 0;
    assert(a@.skip(0) =~= a@ && b@.skip(0) =~= b@);
    while i < a.len() && i < b.len() && a[i] == b[i]
        invariant
            i <= a.len(),
            i <= b.len(),
            lex_le(a@, b@) == lex_le(a@.skip(i as int), b@.skip(i as int)),
        decreases a.len() - i,
    {
        assert(a@.skip(i as int).drop_first() =~= a@.skip(i + 1));
        assert(b@.skip(i as int).drop_first() =~= b@.skip(i + 1));
        i = i + 1;
    }
    if i == a.len() {
        true
    } else if i == b.len() {
        false
    } else {
        assert(a@.skip(i as int)[0] == a@[i as int]);
        assert(b@.skip(i as int)[0] == b@[i as int]);
        (a[i] as u32) < (b[i] as u32)
    }
}

/// `out` is `peers` reordered (`src` says from where) with labels ascending
/// ignoring case.
pub open spec fn sorted_by_label(peers: Seq<Peer>, out: Seq<Peer>, src: Seq<int>) -> bool {
    &&& src.len() == out.len() == peers.len()
    &&& forall|p: int| 0 <= p < src.len() ==> 0 <= #[trigger] src[p] < peers.len() && out[p] == peers[src[p]]
    &&& forall|p: int, q: int| 0 <= p < q < src.len() ==> src[p] != src[q]
    &&& forall|p: int, q: int|
        #![trigger out[p], out[q]]
        0 <= p < q < out.len() ==> lex_le(lowercase(out[p].label@), lowercase(out[q].label@))
}

proof fn lemma_insert_sorted(keys: Seq<Seq<char>>, k: Seq<char>, pos: int)
    requires
        forall|p: int, q: int| #![trigger keys[p], keys[q]] 0 <= p < q < keys.len() ==> lex_le(keys[p], keys[q]),
        0 <= pos <= keys.len(),
        forall|q: int| 0 <= q < pos ==> lex_le(#[trigger] keys[q], k),
        pos < keys.len() ==> !lex_le(keys[pos], k),
    ensures
        ({
            let k2 = keys.insert(pos, k);
            forall|p: int, q: int| #![trigger k2[p], k2[q]] 0 <= p < q < k2.len() ==> lex_le(k2[p], k2[q])
        }),
{
    let k2 = keys.insert(pos, k);
    if pos < keys.len() {
        lemma_lex_total(keys[pos], k);
    }
    assert forall|p: int, q: int| 0 <= p < q < k2.len() implies lex_le(k2[p], k2[q]) by {
        if q < pos {
            assert(k2[p] == keys[p] && k2[q] == keys[q]);
        } else if q == pos {
            assert(k2[p] == keys[p]);
        } else if p == pos {
            assert(k2[q] == keys[q - 1]);
            if q - 1 > pos {
                lemma_lex_trans(k, keys[pos], keys[q - 1]);
            }
        } else if p < pos {
            assert(k2[p] == keys[p] && k2[q] == keys[q - 1]);
        } else {
            assert(k2[p] == keys[p - 1] && k2[q] == keys[q - 1]);
        }
    }
}

/// Orders peers by label, ignoring case, as `drop peers` lists them.
pub fn sort_peers(peers: Vec<Peer>) -> (out: Vec<Peer>)
    ensures
        exists|src: Seq<int>| #[trigger] sorted_by_label(peers@, out@, src),
{
    let n = peers.len();
    let ghost e = peers@;
    let mut out: Vec<Peer> = Vec::new();
    let mut keys: Vec<Vec<char>> = Vec::new();
    let ghost mut src: Seq<int> = Seq::empty();
    let mut rest = peers;
    let mut i: usize = 0;
    while i < n
        invariant
            n == e.len(),
            i <= n,
            rest@ == e.subrange(i as int, n as int),
            src.len() == out.len() == keys.len() == i,
            forall|p: int| 0 <= p < src.len() ==> 0 <= #[trigger] src[p] < i && out@[p] == e[src[p]],
            forall|p: int, q: int| 0 <= p < q < src.len() ==> src[p] != src[q],
            forall|p: int| 0 <= p < keys.len() ==> (#[trigger] keys@[p])@ == lowercase(out@[p].label@),
            forall|p: int, q: int|
                #![trigger keys@[p], keys@[q]]
                0 <= p < q < keys.len() ==> lex_le(keys@[p]@, keys@[q]@),
        decreases n - i,
    {
        let x = rest.remove(0);
        assert(x == e[i as int]);
        assert(rest@ =~= e.subrange(i + 1, n as int));
        let k = chars_of(to_lower(x.label.as_str()).as_str());
        let mut pos: usize = 0;
        while pos < keys.len() && lex_le_exec(&keys[pos], &k)
            invariant
                pos <= keys.len(),
                forall|q: int| 0 <= q < pos ==> lex_le(#[trigger] keys@[q]@, k@),
            decreases keys.len() - pos,
        {
            pos = pos + 1;
        }
        let ghost old_out = out@;
        let ghost old_src = src;
        let ghost old_keys = keys@.map_values(|v: Vec<char>| v@);
        proof {
            assert forall|p: int, q: int| #![trigger old_keys[p], old_keys[q]] 0 <= p < q < old_keys.len() implies lex_le(
                old_keys[p],
                old_keys[q],
            ) by {
                assert(old_keys[p] == keys@[p]@ && old_keys[q] == keys@[q]@);
            }
            assert forall|q: int| 0 <= q < pos implies lex_le(#[trigger] old_keys[q], k@) by {
                assert(old_keys[q] == keys@[q]@);
            }
            if pos < keys.len() {
                assert(old_keys[pos as int] == keys@[pos as int]@);
            }
            lemma_insert_sorted(old_keys, k@, pos as int);
        }
        let ghost kv = k@;
        out.insert(pos, x);
        keys.insert(pos, k);
        proof {
            src = src.insert(pos as int, i as int);
            let k2 = old_keys.insert(pos as int, kv);
            assert forall|p: int| 0 <= p < keys.len() implies (#[trigger] keys@[p])@ == k2[p] by {
                if p < pos {
                    assert(keys@[p]@ == old_keys[p]);
                } else if p > pos {
                    assert(keys@[p]@ == old_keys[p - 1]);
                }
            }
            assert forall|p: int| 0 <= p < src.len() implies 0 <= #[trigger] src[p] < i + 1 && out@[p] == e[src[p]] by {
                if p < pos {
                    assert(src[p] == old_src[p] && out@[p] == old_out[p]);
                } else if p > pos {
                    assert(src[p] == old_src[p - 1] && out@[p] == old_out[p - 1]);
                }
            }
            assert forall|p: int| 0 <= p < keys.len() implies (#[trigger] keys@[p])@ == lowercase(out@[p].label@) by {
                if p < pos {
                    assert(out@[p] == old_out[p]);
                } else if p > pos {
                    assert(out@[p] == old_out[p - 1]);
                }
            }
            assert forall|p: int, q: int| 0 <= p < q < src.len() implies src[p] != src[q] by {
                if p < pos && q > pos {
                    assert(src[q] == old_src[q - 1]);
                } else if p > pos {
                    assert(src[p] == old_src[p - 1] && src[q] == old_src[q - 1]);
                } else if q < pos {
                    assert(src[p] == old_src[p] && src[q] == old_src[q]);
                } else if p == pos {
                    assert(src[q] == old_src[q - 1]);
                } else {
                    assert(src[p] == old_src[p]);
                }
            }
            assert forall|p: int, q: int| #![trigger keys@[p], keys@[q]] 0 <= p < q < keys.len() implies lex_le(
                keys@[p]@,
                keys@[q]@,
            ) by {
                assert(keys@[p]@ == k2[p] && keys@[q]@ == k2[q]);
            }
        }
        i = i + 1;
    }
    proof {
        assert forall|p: int, q: int| #![trigger out@[p], out@[q]] 0 <= p < q < out@.len() implies lex_le(
            lowercase(out@[p].label@),
            lowercase(out@[q].label@),
        ) by {
            assert(keys@[p]@ == lowercase(out@[p].label@));
            assert(keys@[q]@ == lowercase(out@[q].label@));
        }
    }
    assert(sorted_by_label(e, out@, src));
    out
}

} // verus!
