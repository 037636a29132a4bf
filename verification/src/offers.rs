//! Transfer offers: the "iPhone wants to send 3 files. Accept / Decline?" step.
//!
//! Two ways in, because a sender that can only make one HTTP request (the iOS
//! Shortcut) cannot offer, poll, then upload:
//!
//!   negotiated  POST /api/offer -> wait for Accept -> POST /api/upload?offer=id
//!               Nothing is transferred until the receiver says yes.
//!
//!   staged      POST /api/upload with no offer. The bytes stream into a hidden
//!               staging folder and an offer is raised for them. They only reach
//!               the Drop folder on Accept, and are deleted on Decline.
//!
//! Either way nothing lands in the Drop folder without a decision.

use vstd::prelude::*;
use crate::auth::now;
use crate::config::random_hex;
use crate::crypto::hex_lower;
use crate::sessions::sat_sub;
use crate::table::Table;

verus! {

/// How long a pending offer waits for a decision before it is dropped.
pub const TTL_SECS: u64 = 300;

#[derive(Clone, Copy, Debug, PartialEq, Eq, Structural)]
pub enum Status {
    Pending,
    Accepted,
    Declined,
    Expired,
    Complete,
}

impl Status {
    /// The lower-case name the JSON API uses.
    pub fn name(&self) -> (s: &'static str)
        ensures
            s@ == status_name(*self),
    {
        match self {
            Status::Pending => "pending",
            Status::Accepted => "accepted",
            Status::Declined => "declined",
            Status::Expired => "expired",
            Status::Complete => "complete",
        }
    }
}

pub open spec fn status_name(s: Status) -> Seq<char> {
    match s {
        Status::Pending => "pending"@,
        Status::Accepted => "accepted"@,
        Status::Declined => "declined"@,
        Status::Expired => "expired"@,
        Status::Complete => "complete"@,
    }
}

#[derive(Clone, Debug)]
pub struct OfferFile {
    pub name: String,
    pub size: u64,
}

pub struct FileView {
    pub name: Seq<char>,
    pub size: u64,
}

impl View for OfferFile {
    type V = FileView;

    open spec fn view(&self) -> FileView {
        FileView { name: self.name@, size: self.size }
    }
}

#[derive(Clone, Debug)]
pub struct Offer {
    pub id: String,
    pub device: String,
    pub files: Vec<OfferFile>,
    pub total: u64,
    pub status: Status,
    pub created: u64,
    /// Set when the bytes are already on disk waiting for a verdict.
    pub staged: Option<String>,
    /// A pasted snippet rather than a file, held so that accepting it can put
    /// it on the clipboard as well as saving it.
    pub text: Option<String>,
}

pub struct OfferView {
    pub id: Seq<char>,
    pub device: Seq<char>,
    pub files: Seq<FileView>,
    pub total: u64,
    pub status: Status,
    pub created: u64,
    pub staged: Option<Seq<char>>,
    pub text: Option<Seq<char>>,
}

pub open spec fn opt_view(s: Option<String>) -> Option<Seq<char>> {
    match s {
        Some(x) => Some(x@),
        None => None,
    }
}

pub open spec fn files_view(files: Seq<OfferFile>) -> Seq<FileView> {
    files.map_values(|f: OfferFile| f@)
}

impl View for Offer {
    type V = OfferView;

    open spec fn view(&self) -> OfferView {
        OfferView {
            id: self.id@,
            device: self.device@,
            files: files_view(self.files@),
            total: self.total,
            status: self.status,
            created: self.created,
            staged: opt_view(self.staged),
            text: opt_view(self.text),
        }
    }
}

/// The sum of the file sizes.
pub open spec fn files_total(files: Seq<FileView>) -> nat
    decreases files.len(),
{
    if files.len() == 0 {
        0
    } else {
        files_total(files.drop_last()) + files.last().size as nat
    }
}

/// Still pending, and older than `TTL_SECS` at `now`.
pub open spec fn expired_at(o: OfferView, now: nat) -> bool {
    o.status == Status::Pending && sat_sub(now, o.created as nat) > TTL_SECS
}

/// Waiting for a decision at `now`.
pub open spec fn awaiting(o: OfferView, now: nat) -> bool {
    o.status == Status::Pending && !expired_at(o, now)
}

pub open spec fn with_status(o: OfferView, s: Status) -> OfferView {
    OfferView { status: s, ..o }
}

/// The offer as `get` leaves it: marked expired once it has waited too long.
pub open spec fn refreshed(o: OfferView, now: nat) -> OfferView {
    if expired_at(o, now) {
        with_status(o, Status::Expired)
    } else {
        o
    }
}

/// An offer once a verdict is recorded: a pending offer takes the verdict,
/// any other keeps its status.
pub open spec fn decided(o: OfferView, accept: bool) -> OfferView {
    if o.status == Status::Pending {
        with_status(o, if accept { Status::Accepted } else { Status::Declined })
    } else {
        o
    }
}

/// Finished one way or another.
pub open spec fn is_done(s: Status) -> bool {
    s == Status::Declined || s == Status::Expired || s == Status::Complete
}

/// Finished and older than twice the TTL: dropped by a sweep.
pub open spec fn is_stale(o: OfferView, now: nat) -> bool {
    is_done(refreshed(o, now).status) && sat_sub(now, o.created as nat) > 2 * TTL_SECS
}

/// The staging folder a sweep hands back for deletion: that of an offer that
/// died undecided (declined or expired) and still has one.
pub open spec fn released(o: OfferView, now: nat) -> Option<Seq<char>> {
    let r = refreshed(o, now);
    if r.status == Status::Declined || r.status == Status::Expired {
        r.staged
    } else {
        None
    }
}

/// What a sweep leaves of an offer it keeps.
pub open spec fn swept(o: OfferView, now: nat) -> OfferView {
    let r = refreshed(o, now);
    if r.status == Status::Declined || r.status == Status::Expired {
        OfferView { staged: None, ..r }
    } else {
        r
    }
}

/// `out` lists the released staging folders of the offers filed under `src`,
/// which are exactly the offers of `st` that release one.
pub open spec fn orphans_of(st: Map<Seq<char>, OfferView>, out: Seq<Seq<char>>, src: Seq<Seq<char>>, now: nat) -> bool {
    &&& src.len() == out.len()
    &&& forall|i: int, j: int| 0 <= i < j < src.len() ==> src[i] != src[j]
    &&& forall|i: int|
        0 <= i < src.len() ==> st.contains_key(#[trigger] src[i]) && released(st[src[i]], now)
            == Some(out[i])
    &&& forall|k: Seq<char>| st.contains_key(k) && (#[trigger] released(st[k], now)) is Some ==> src.contains(k)
}

/// The record after a sweep at `now`: stale offers dropped, the rest
/// refreshed, and those that died undecided stripped of their staging folder.
pub open spec fn swept_registry(st: Map<Seq<char>, OfferView>, now: nat) -> Map<Seq<char>, OfferView> {
    Map::new(|k: Seq<char>| st.contains_key(k) && !is_stale(st[k], now), |k: Seq<char>| swept(st[k], now))
}

pub open spec fn strings_view(s: Seq<String>) -> Seq<Seq<char>> {
    s.map_values(|x: String| x@)
}

pub open spec fn offers_view(s: Seq<Offer>) -> Seq<OfferView> {
    s.map_values(|o: Offer| o@)
}

/// `out` lists, oldest first, exactly the offers of `st` awaiting a decision
/// at `now`.
pub open spec fn pending_listing(st: Map<Seq<char>, OfferView>, out: Seq<OfferView>, now: nat) -> bool {
    &&& forall|p: int|
        0 <= p < out.len() ==> st.contains_key(#[trigger] out[p].id) && st[out[p].id] == out[p]
            && awaiting(out[p], now)
    &&& forall|k: Seq<char>|
        st.contains_key(k) && awaiting(#[trigger] st[k], now) ==> exists|p: int|
            0 <= p < out.len() && #[trigger] out[p].id == k
    &&& forall|p: int, q: int| 0 <= p < q < out.len() ==> out[p].id != out[q].id
    &&& forall|p: int, q: int| 0 <= p < q < out.len() ==> out[p].created <= out[q].created
}

impl OfferFile {
    pub fn duplicate(&self) -> (r: OfferFile)
        ensures
            r@ == self@,
    {
        OfferFile { name: self.name.clone(), size: self.size }
    }
}

fn dup_files(files: &Vec<OfferFile>) -> (r: Vec<OfferFile>)
    ensures
        files_view(r@) == files_view(files@),
{
    let mut r: Vec<OfferFile> = Vec::new();
    let mut i: usize = 0;
    while i < files.len()
        invariant
            i <= files.len(),
            r@.len() == i,
            forall|j: int| 0 <= j < i ==> (#[trigger] r@[j])@ == files@[j]@,
        decreases files.len() - i,
    {
        r.push(files[i].duplicate());
        i = i + 1;
    }
    assert(files_view(r@) =~= files_view(files@));
    r
}

fn dup_opt(s: &Option<String>) -> (r: Option<String>)
    ensures
        opt_view(r) == opt_view(*s),
{
    match s {
        Some(x) => Some(x.clone()),
        None => None,
    }
}

/// The total size of `files`, or `None` when it does not fit in a `u64`.
pub fn total_size(files: &Vec<OfferFile>) -> (r: Option<u64>)
    ensures
        match r {
            Some(t) => t == files_total(files_view(files@)),
            None => files_total(files_view(files@)) > u64::MAX,
        },
{
    let mut acc: u64 = 0;
    let mut i: usize = 0;
    while i < files.len()
        invariant
            i <= files.len(),
            acc == files_total(files_view(files@.take(i as int))),
        decreases files.len() - i,
    {
        let ghost pre = files_view(files@.take(i as int));
        assert(files_view(files@.take(i + 1)).drop_last() =~= pre);
        if files[i].size > u64::MAX - acc {
            proof {
                lemma_total_monotone(files_view(files@), i + 1);
                assert(files_view(files@.take(i + 1)) =~= files_view(files@).take(i + 1));
                assert(files_view(files@) =~= files_view(files@).take(files@.len() as int));
            }
            return None;
        }
        acc = acc + files[i].size;
        i = i + 1;
    }
    assert(files@.take(i as int) =~= files@);
    Some(acc)
}

proof fn lemma_total_monotone(f: Seq<FileView>, k: int)
    requires
        0 <= k <= f.len(),
    ensures
        files_total(f.take(k)) <= files_total(f),
    decreases f.len() - k,
{
    if k < f.len() {
        lemma_total_monotone(f, k + 1);
        assert(f.take(k + 1).drop_last() =~= f.take(k));
    } else {
        assert(f.take(k) =~= f);
    }
}

impl Offer {
    /// Still pending, and older than `TTL_SECS` at `now`.
    pub fn expired(&self, now: u64) -> (r: bool)
        ensures
            r == expired_at(self@, now as nat),
    {
        let age: u64 = if now >= self.created { now - self.created } else { 0 };
        self.status == Status::Pending && age > TTL_SECS
    }

    /// A copy with the same contents.
    pub fn duplicate(&self) -> (r: Offer)
        ensures
            r@ == self@,
    {
        Offer {
            id: self.id.clone(),
            device: self.device.clone(),
            files: dup_files(&self.files),
            total: self.total,
            status: self.status,
            created: self.created,
            staged: dup_opt(&self.staged),
            text: dup_opt(&self.text),
        }
    }
}

pub struct Registry {
    map: Table<Offer>,
}

impl View for Registry {
    type V = Map<Seq<char>, OfferView>;

    closed spec fn view(&self) -> Map<Seq<char>, OfferView> {
        self.map.view().map_values(|o: Offer| o@)
    }
}

impl Default for Registry {
    fn default() -> (r: Self)
        ensures
            r@ == Map::<Seq<char>, OfferView>::empty(),
    {
        Registry::new()
    }
}

impl Registry {
    #[verifier::type_invariant]
    spec fn inv(self) -> bool {
        &&& self.map.wf()
        &&& forall|i: int|
            0 <= i < self.map.key_seq().len() ==> (#[trigger] self.map.val_seq()[i]).id@
                == self.map.key_seq()[i]
    }

    pub fn new() -> (r: Self)
        ensures
            r@ == Map::<Seq<char>, OfferView>::empty(),
    {
        let r = Registry { map: Table::new() };
        assert(r@ =~= Map::<Seq<char>, OfferView>::empty());
        r
    }

    /// Files `o` under its id, replacing any offer filed there.
    fn file(&mut self, o: Offer)
        ensures
            final(self)@ == old(self)@.insert(o@.id, o@),
    {
        proof {
            use_type_invariant(&*self);
        }
        let key = o.id.clone();
        let mut t: Table<Offer> = Table::new();
        std::mem::swap(&mut t, &mut self.map);
        match t.find(&key) {
            Some(i) => {
                t.set_at(i, o);
            },
            None => {
                t.push(key, o);
            },
        }
        self.map = t;
        assert(self@ =~= old(self)@.insert(o@.id, o@));
    }

    /// Where the offer `id` is listed.
    fn locate(&self, id: &str) -> (r: Option<usize>)
        ensures
            match r {
                Some(i) => i < self.map.key_seq().len() && self@.contains_key(id@) && self.map.val_seq()[i as int]@ == self@[id@],
                None => !self@.contains_key(id@),
            },
    {
        proof {
            use_type_invariant(self);
        }
        let key = id.to_owned();
        let r = self.map.find(&key);
        proof {
            if let Some(i) = r {
                self.map.lemma_entry(i as int);
            }
        }
        r
    }

    /// Raises an offer with the given id, created at `now`.
    pub fn create_at(
        &mut self,
        id: String,
        device: String,
        files: Vec<OfferFile>,
        staged: Option<String>,
        text: Option<String>,
        now: u64,
    ) -> (o: Offer)
        requires
            files_total(files_view(files@)) <= u64::MAX,
        ensures
            o@ == (OfferView {
                id: id@,
                device: device@,
                files: files_view(files@),
                total: files_total(files_view(files@)) as u64,
                status: Status::Pending,
                created: now,
                staged: opt_view(staged),
                text: opt_view(text),
            }),
            final(self)@ == old(self)@.insert(id@, o@),
    {
        let total = match total_size(&files) {
            Some(t) => t,
            None => 0,
        };
        let o = Offer { id, device, files, total, status: Status::Pending, created: now, staged, text };
        let kept = o.duplicate();
        self.file(kept);
        o
    }

    /// Raises an offer for `files` under a fresh random id; `None`, with
    /// nothing filed, when the system RNG fails to give one.
    pub fn create(&mut self, device: String, files: Vec<OfferFile>, staged: Option<String>) -> (r: Option<Offer>)
        requires
            files_total(files_view(files@)) <= u64::MAX,
        ensures
            match r {
                Some(o) => {
                    &&& o@.id.len() == 16
                    &&& exists|b: Seq<u8>| b.len() == 8 && o@.id == #[trigger] hex_lower(b)
                    &&& o@.device == device@
                    &&& o@.files == files_view(files@)
                    &&& o@.total == files_total(files_view(files@))
                    &&& o@.status == Status::Pending
                    &&& o@.staged == opt_view(staged)
                    &&& o@.text is None
                    &&& final(self)@ == old(self)@.insert(o@.id, o@)
                },
                None => final(self)@ == old(self)@,
            },
    {
        let id = match random_hex(8) {
            Some(id) => id,
            None => return None,
        };
        proof {
            let b = choose|b: Seq<u8>| b.len() == 8 && id@ == #[trigger] crate::crypto::hex_lower(b);
            crate::crypto::lemma_hex_len(b);
        }
        Some(self.create_at(id, device, files, staged, None, now()))
    }

    /// A text snippet, offered the same way a file is so that it goes through
    /// the same accept prompt. `None`, with nothing filed, when the system RNG
    /// fails to give an id.
    pub fn create_text(&mut self, device: String, file: OfferFile, staged: String, text: String) -> (r: Option<Offer>)
        ensures
            match r {
                Some(o) => {
                    &&& o@.id.len() == 16
                    &&& exists|b: Seq<u8>| b.len() == 8 && o@.id == #[trigger] hex_lower(b)
                    &&& o@.device == device@
                    &&& o@.files == seq![file@]
                    &&& o@.total == file.size
                    &&& o@.status == Status::Pending
                    &&& o@.staged == Some(staged@)
                    &&& o@.text == Some(text@)
                    &&& final(self)@ == old(self)@.insert(o@.id, o@)
                },
                None => final(self)@ == old(self)@,
            },
    {
        let ghost fv = file@;
        let mut files: Vec<OfferFile> = Vec::new();
        files.push(file);
        assert(files_view(files@) =~= seq![fv]);
        assert(files_view(files@).drop_last() =~= Seq::<FileView>::empty());
        assert(files_total(Seq::<FileView>::empty()) == 0);
        assert(files_total(files_view(files@)) == fv.size as nat);
        let id = match random_hex(8) {
            Some(id) => id,
            None => return None,
        };
        proof {
            let b = choose|b: Seq<u8>| b.len() == 8 && id@ == #[trigger] crate::crypto::hex_lower(b);
            crate::crypto::lemma_hex_len(b);
        }
        Some(self.create_at(id, device, files, Some(staged), Some(text), now()))
    }

    /// The offer `id` as of `now`, marked expired once it has waited too long.
    pub fn get_at(&mut self, id: &str, now: u64) -> (r: Option<Offer>)
        ensures
            match r {
                None => !old(self)@.contains_key(id@) && final(self)@ == old(self)@,
                Some(o) => old(self)@.contains_key(id@)
                    && o@ == refreshed(old(self)@[id@], now as nat)
                    && final(self)@ == old(self)@.insert(id@, o@),
            },
    {
        proof {
            use_type_invariant(&*self);
        }
        let i = match self.locate(id) {
            None => return None,
            Some(i) => i,
        };
        let mut o = self.map.val_at(i).duplicate();
        if o.expired(now) {
            o.status = Status::Expired;
        }
        proof {
            self.map.lemma_entry(i as int);
        }
        let r = o.duplicate();
        self.file(o);
        Some(r)
    }

    /// The offer `id` as it stands now.
    pub fn get(&mut self, id: &str) -> (r: Option<Offer>)
        ensures
            exists|t: u64|
                match r {
                    None => !old(self)@.contains_key(id@) && final(self)@ == old(self)@,
                    Some(o) => old(self)@.contains_key(id@)
                        && o@ == #[trigger] refreshed(old(self)@[id@], t as nat)
                        && final(self)@ == old(self)@.insert(id@, o@),
                },
    {
        let t = now();
        let r = self.get_at(id, t);
        proof {
            if r is Some {
                assert(r->0@ == refreshed(old(self)@[id@], t as nat));
            }
        }
        r
    }

    /// Records a verdict on `id` and returns the offer as it now stands. A
    /// decided offer keeps its verdict.
    pub fn decide(&mut self, id: &str, accept: bool) -> (r: Option<Offer>)
        ensures
            match r {
                None => !old(self)@.contains_key(id@) && final(self)@ == old(self)@,
                Some(o) => old(self)@.contains_key(id@)
                    && o@ == decided(old(self)@[id@], accept)
                    && final(self)@ == old(self)@.insert(id@, o@),
            },
    {
        proof {
            use_type_invariant(&*self);
        }
        let i = match self.locate(id) {
            None => return None,
            Some(i) => i,
        };
        proof {
            self.map.lemma_entry(i as int);
        }
        let mut o = self.map.val_at(i).duplicate();
        if o.status == Status::Pending {
            o.status = if accept { Status::Accepted } else { Status::Declined };
        }
        let r = o.duplicate();
        self.file(o);
        Some(r)
    }

    /// Offers still awaiting a decision at `now`, oldest first.
    pub fn pending_at(&self, now: u64) -> (out: Vec<Offer>)
        ensures
            forall|p: int|
                0 <= p < out.len() ==> {
                    &&& self@.contains_key(#[trigger] out@[p]@.id)
                    &&& self@[out@[p]@.id] == out@[p]@
                    &&& awaiting(out@[p]@, now as nat)
                },
            forall|k: Seq<char>|
                self@.contains_key(k) && awaiting(#[trigger] self@[k], now as nat) ==> exists|p: int|
                    0 <= p < out.len() && #[trigger] out@[p]@.id == k,
            forall|p: int, q: int| 0 <= p < q < out.len() ==> out@[p]@.id != out@[q]@.id,
            forall|p: int, q: int| 0 <= p < q < out.len() ==> out@[p].created <= out@[q].created,
    {
        proof {
            use_type_invariant(self);
        }
        let n = self.map.len();
        let mut out: Vec<Offer> = Vec::new();
        let ghost mut src: Seq<int> = Seq::empty();
        let mut i: usize = 0;
        while i < n
            invariant
                n == self.map.key_seq().len(),
                self.map.wf(),
                forall|j: int|
                    0 <= j < self.map.key_seq().len() ==> (#[trigger] self.map.val_seq()[j]).id@
                        == self.map.key_seq()[j],
                i <= n,
                out.len() == src.len(),
                forall|p: int|
                    0 <= p < src.len() ==> 0 <= #[trigger] src[p] < i && out@[p]@
                        == self.map.val_seq()[src[p]]@ && awaiting(out@[p]@, now as nat),
                forall|p: int, q: int| 0 <= p < q < src.len() ==> src[p] != src[q],
                forall|j: int|
                    0 <= j < i && awaiting(#[trigger] self.map.val_seq()[j]@, now as nat)
                        ==> src.contains(j),
                forall|p: int, q: int| 0 <= p < q < out.len() ==> out@[p].created <= out@[q].created,
            decreases n - i,
        {
            let o = self.map.val_at(i);
            if o.status == Status::Pending && !o.expired(now) {
                let mut pos: usize = 0;
                while pos < out.len() && out[pos].created <= o.created
                    invariant
                        pos <= out.len(),
                        forall|q: int| 0 <= q < pos ==> out@[q].created <= o.created,
                    decreases out.len() - pos,
                {
                    pos = pos + 1;
                }
                let ghost old_out = out@;
                let ghost old_src = src;
                out.insert(pos, o.duplicate());
                proof {
                    src = src.insert(pos as int, i as int);
                    assert forall|p: int| 0 <= p < src.len() implies 0 <= #[trigger] src[p] < i + 1
                        && out@[p]@ == self.map.val_seq()[src[p]]@ && awaiting(out@[p]@, now as nat) by {
                        if p < pos {
                            assert(src[p] == old_src[p] && out@[p] == old_out[p]);
                        } else if p > pos {
                            assert(src[p] == old_src[p - 1] && out@[p] == old_out[p - 1]);
                        }
                    }
                    assert forall|p: int, q: int| 0 <= p < q < src.len() implies src[p] != src[q] by {
                        if p < pos && q > pos {
                            assert(src[q] == old_src[q - 1]);
                        } else if p > pos {
                            assert(src[p] == old_src[p - 1] && src[q] == old_src[q - 1]);
                        } else if q < pos {
                            assert(src[p] == old_src[p] && src[q] == old_src[q]);
                        } else if p == pos {
                            assert(src[q] == old_src[q - 1]);
                        } else {
                            assert(src[p] == old_src[p]);
                        }
                    }
                    assert forall|p: int, q: int| 0 <= p < q < out.len() implies out@[p].created
                        <= out@[q].created by {
                        if pos < old_out.len() {
                            assert(old_out[pos as int].created > o.created);
                        }
                        if q > pos as int && p < pos as int {
                            assert(old_out[p].created <= old_out[q - 1].created || p == q - 1);
                        }
                        if q > pos as int && p == pos as int && q - 1 > pos as int {
                            assert(old_out[pos as int].created <= old_out[q - 1].created);
                        }
                    }
                    assert forall|j: int|
                        0 <= j < i + 1 && awaiting(#[trigger] self.map.val_seq()[j]@, now as nat)
                            implies src.contains(j) by {
                        if j == i {
                            assert(src[pos as int] == i);
                        } else {
                            assert(old_src.contains(j));
                            let p = choose|p: int| 0 <= p < old_src.len() && old_src[p] == j;
                            if p < pos {
                                assert(src[p] == j);
                            } else {
                                assert(src[p + 1] == j);
                            }
                        }
                    }
                }
            }
            i = i + 1;
        }
        proof {
            assert forall|p: int| 0 <= p < out.len() implies {
                &&& self@.contains_key(#[trigger] out@[p]@.id)
                &&& self@[out@[p]@.id] == out@[p]@
                &&& awaiting(out@[p]@, now as nat)
            } by {
                self.map.lemma_entry(src[p]);
            }
            assert forall|k: Seq<char>|
                self@.contains_key(k) && awaiting(#[trigger] self@[k], now as nat) implies exists|p: int|
                0 <= p < out.len() && #[trigger] out@[p]@.id == k by {
                self.map.lemma_key(k);
                let j = self.map.index_of_key(k);
                self.map.lemma_entry(j);
                assert(src.contains(j));
                let p = choose|p: int| 0 <= p < src.len() && src[p] == j;
                assert(out@[p]@.id == k);
            }
            assert forall|p: int, q: int| 0 <= p < q < out.len() implies out@[p]@.id != out@[q]@.id by {
                assert(src[p] != src[q]);
                if src[p] < src[q] {
                    assert(self.map.key_seq()[src[p]] != self.map.key_seq()[src[q]]);
                } else {
                    assert(self.map.key_seq()[src[q]] != self.map.key_seq()[src[p]]);
                }
            }
        }
        out
    }

    /// Offers still awaiting a decision, oldest first.
    pub fn pending(&self) -> (out: Vec<Offer>)
        ensures
            exists|t: u64|
                #[trigger] pending_listing(self@, offers_view(out@), t as nat),
    {
        let t = now();
        let out = self.pending_at(t);
        proof {
            let outv = offers_view(out@);
            assert forall|k: Seq<char>| self@.contains_key(k) && awaiting(#[trigger] self@[k], t as nat) implies exists|p: int|
                0 <= p < outv.len() && #[trigger] outv[p].id == k by {
                let p = choose|p: int| 0 <= p < out.len() && #[trigger] out@[p]@.id == k;
                assert(outv[p].id == k);
            }
            assert(pending_listing(self@, outv, t as nat));
        }
        out
    }

    /// Drops stale entries and returns the staging folders whose offers died
    /// undecided, so the caller can delete the bytes. Finished offers are kept
    /// for a while so a polling sender sees the verdict rather than a 404.
    pub fn sweep_at(&mut self, now: u64) -> (out: Vec<String>)
        ensures
            final(self)@ == swept_registry(old(self)@, now as nat),
            exists|src: Seq<Seq<char>>| #[trigger] orphans_of(old(self)@, strings_view(out@), src, now as nat),
    {
        proof {
            use_type_invariant(&*self);
        }
        let mut kept: Table<Offer> = Table::new();
        let mut out: Vec<String> = Vec::new();
        let ghost mut srcidx: Seq<int> = Seq::empty();
        let n = self.map.len();
        let mut i: usize = 0;
        while i < n
            invariant
                n == self.map.key_seq().len(),
                self.map.wf(),
                forall|j: int|
                    0 <= j < self.map.key_seq().len() ==> (#[trigger] self.map.val_seq()[j]).id@
                        == self.map.key_seq()[j],
                i <= n,
                kept.wf(),
                forall|j: int|
                    0 <= j < kept.key_seq().len() ==> (#[trigger] kept.val_seq()[j]).id@
                        == kept.key_seq()[j],
                forall|k: Seq<char>|
                    #[trigger] kept.view().contains_key(k) ==> exists|j: int|
                        0 <= j < i && self.map.key_seq()[j] == k,
                forall|j: int|
                    0 <= j < i ==> (kept.view().contains_key(#[trigger] self.map.key_seq()[j])
                        <==> !is_stale(self.map.val_seq()[j]@, now as nat)),
                forall|j: int|
                    0 <= j < i && kept.view().contains_key(#[trigger] self.map.key_seq()[j])
                        ==> kept.view()[self.map.key_seq()[j]]@ == swept(self.map.val_seq()[j]@, now as nat),
                out.len() == srcidx.len(),
                forall|p: int|
                    0 <= p < srcidx.len() ==> 0 <= #[trigger] srcidx[p] < i && released(
                        self.map.val_seq()[srcidx[p]]@,
                        now as nat,
                    ) == Some(out@[p]@),
                forall|p: int, q: int| 0 <= p < q < srcidx.len() ==> srcidx[p] < srcidx[q],
                forall|j: int|
                    0 <= j < i && (#[trigger] released(self.map.val_seq()[j]@, now as nat)) is Some
                        ==> srcidx.contains(j),
            decreases n - i,
        {
            let mut o = self.map.val_at(i).duplicate();
            proof {
                self.map.lemma_entry(i as int);
            }
            let ghost ov = o@;
            if o.expired(now) {
                o.status = Status::Expired;
            }
            let done = o.status == Status::Declined || o.status == Status::Expired || o.status
                == Status::Complete;
            let age: u64 = if now >= o.created { now - o.created } else { 0 };
            let ghost before = kept.view();
            let ghost old_srcidx = srcidx;
            if done && age > TTL_SECS * 2 {
                if o.status == Status::Declined || o.status == Status::Expired {
                    if let Some(d) = o.staged {
                        out.push(d);
                        proof {
                            srcidx = srcidx.push(i as int);
                        }
                    }
                }
            } else {
                if o.status == Status::Declined || o.status == Status::Expired {
                    if let Some(d) = o.staged.take() {
                        out.push(d);
                        proof {
                            srcidx = srcidx.push(i as int);
                        }
                    }
                }
                let k = self.map.key_at(i).clone();
                proof {
                    if kept.view().contains_key(k@) {
                        let j = choose|j: int| 0 <= j < i && self.map.key_seq()[j] == k@;
                        assert(self.map.key_seq()[j] != self.map.key_seq()[i as int]);
                    }
                }
                kept.push(k, o);
            }
            proof {
                assert forall|k: Seq<char>|
                    #[trigger] kept.view().contains_key(k) implies exists|j: int|
                        0 <= j < i + 1 && self.map.key_seq()[j] == k by {
                    if before.contains_key(k) {
                        let j = choose|j: int| 0 <= j < i && self.map.key_seq()[j] == k;
                        assert(0 <= j < i + 1);
                    } else {
                        assert(self.map.key_seq()[i as int] == k);
                    }
                }
                assert forall|j: int|
                    0 <= j < i + 1 implies (kept.view().contains_key(#[trigger] self.map.key_seq()[j])
                        <==> !is_stale(self.map.val_seq()[j]@, now as nat)) by {
                    if j < i {
                        assert(self.map.key_seq()[j] != self.map.key_seq()[i as int]);
                    }
                }
                assert forall|j: int|
                    0 <= j < i + 1 && kept.view().contains_key(#[trigger] self.map.key_seq()[j])
                        implies kept.view()[self.map.key_seq()[j]]@ == swept(self.map.val_seq()[j]@, now as nat) by {
                    if j < i {
                        assert(self.map.key_seq()[j] != self.map.key_seq()[i as int]);
                    }
                }
                assert forall|j: int|
                    0 <= j < i + 1 && (#[trigger] released(self.map.val_seq()[j]@, now as nat)) is Some
                        implies srcidx.contains(j) by {
                    if j < i {
                        let p = choose|p: int| 0 <= p < old_srcidx.len() && old_srcidx[p] == j;
                        assert(srcidx[p] == j);
                    } else {
                        assert(srcidx[srcidx.len() - 1] == j);
                    }
                }
            }
            i = i + 1;
        }
        self.map = kept;
        proof {
            let target = swept_registry(old(self)@, now as nat);
            assert forall|k: Seq<char>| #[trigger] self@.contains_key(k) == target.contains_key(k) by {
                if self@.contains_key(k) {
                    let j = choose|j: int| 0 <= j < n && old(self).map.key_seq()[j] == k;
                    old(self).map.lemma_entry(j);
                }
                if target.contains_key(k) {
                    old(self).map.lemma_key(k);
                    let j = old(self).map.index_of_key(k);
                    old(self).map.lemma_entry(j);
                }
            }
            assert forall|k: Seq<char>| self@.contains_key(k) implies self@[k] == target[k] by {
                let j = choose|j: int| 0 <= j < n && old(self).map.key_seq()[j] == k;
                old(self).map.lemma_entry(j);
            }
            assert(self@ =~= target);
            let src = Seq::new(srcidx.len(), |p: int| old(self).map.key_seq()[srcidx[p]]);
            let outv = strings_view(out@);
            assert forall|p: int|
                0 <= p < src.len() implies old(self)@.contains_key(#[trigger] src[p]) && released(
                    old(self)@[src[p]],
                    now as nat,
                ) == Some(outv[p]) by {
                old(self).map.lemma_entry(srcidx[p]);
            }
            assert forall|p: int, q: int| 0 <= p < q < src.len() implies src[p] != src[q] by {
                assert(srcidx[p] < srcidx[q]);
                assert(old(self).map.key_seq()[srcidx[p]] != old(self).map.key_seq()[srcidx[q]]);
            }
            assert forall|k: Seq<char>|
                old(self)@.contains_key(k) && (#[trigger] released(old(self)@[k], now as nat)) is Some
                    implies src.contains(k) by {
                old(self).map.lemma_key(k);
                let j = old(self).map.index_of_key(k);
                old(self).map.lemma_entry(j);
                let p = choose|p: int| 0 <= p < srcidx.len() && srcidx[p] == j;
                assert(src[p] == k);
            }
            assert(orphans_of(old(self)@, outv, src, now as nat));
        }
        out
    }

    /// Drops stale entries as of now; see `sweep_at`.
    pub fn sweep(&mut self) -> (out: Vec<String>)
        ensures
            exists|t: u64|
                final(self)@ == #[trigger] swept_registry(old(self)@, t as nat) && exists|src: Seq<Seq<char>>|
                    #[trigger] orphans_of(old(self)@, strings_view(out@), src, t as nat),
    {
        let t = now();
        self.sweep_at(t)
    }

    /// Sets the status of `id`, if it is listed.
    pub fn set_status(&mut self, id: &str, status: Status)
        ensures
            final(self)@ == if old(self)@.contains_key(id@) {
                old(self)@.insert(id@, with_status(old(self)@[id@], status))
            } else {
                old(self)@
            },
    {
        proof {
            use_type_invariant(&*self);
        }
        let i = match self.locate(id) {
            None => return,
            Some(i) => i,
        };
        proof {
            self.map.lemma_entry(i as int);
        }
        let mut o = self.map.val_at(i).duplicate();
        o.status = status;
        self.file(o);
    }
}

/// A verdict is final: once decided, a second verdict changes nothing.
pub proof fn lemma_verdict_is_final(o: OfferView, first: bool, second: bool)
    requires
        o.status == Status::Pending,
    ensures
        decided(decided(o, first), second) == decided(o, first),
        decided(o, first).status == if first { Status::Accepted } else { Status::Declined },
{
}

/// A decided offer is no longer awaiting a decision, at any time.
pub proof fn lemma_decided_not_pending(o: OfferView, accept: bool, now: nat)
    requires
        o.status == Status::Pending,
    ensures
        !awaiting(decided(o, accept), now),
{
}

/// Declining a staged offer hands its staging folder to the next sweep, and
/// the sweep leaves no folder behind on the record.
pub proof fn lemma_decline_releases_stage(o: OfferView, now: nat)
    requires
        o.status == Status::Pending,
        o.staged is Some,
    ensures
        released(decided(o, false), now) == o.staged,
        !is_stale(decided(o, false), now) ==> swept(decided(o, false), now).staged is None,
{
}

/// An offer left pending past its TTL is never listed as pending again.
pub proof fn lemma_expired_not_pending(o: OfferView, now: nat)
    requires
        expired_at(o, now),
    ensures
        !awaiting(o, now),
        refreshed(o, now).status == Status::Expired,
        released(o, now) == o.staged,
{
}

/// A sweep never drops or alters an offer that is still awaiting a decision.
pub proof fn lemma_sweep_keeps_pending(st: Map<Seq<char>, OfferView>, k: Seq<char>, now: nat)
    requires
        st.contains_key(k),
        awaiting(st[k], now),
    ensures
        swept_registry(st, now).contains_key(k),
        swept_registry(st, now)[k] == st[k],
        released(st[k], now) is None,
{
}

} // verus!
