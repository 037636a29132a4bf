//! The top-right indicator: what it shows and what its menu offers.
//!
//! The indicator runs as its own process and talks to the daemon over
//! loopback. This module decides the title, icon, tooltip and menu from the
//! daemon's last status; drawing them is the desktop's business.

use vstd::prelude::*;
use crate::net::{file_name, file_name_of};
use crate::text::{
    chars_of, decimal, extend_chars, extend_str, push_decimal, string_of, starts_with, starts_with_exec,
    slice_chars,
};

verus! {

/// The daemon's status as the indicator reads it.
#[derive(Clone, Debug)]
pub struct Status {
    pub name: String,
    pub pin: String,
    pub dir: String,
    pub local_url: String,
    pub tunnel_enabled: bool,
    pub tunnel_url: Option<String>,
    pub auto_move: bool,
    pub move_target: String,
    pub received: u64,
    pub peers: usize,
    pub files_waiting: usize,
}

#[derive(Debug)]
pub struct DropTray {
    pub port: u16,
    pub status: Option<Status>,
}

/// What clicking a menu entry does.
#[derive(Clone, Debug)]
pub enum Action {
    Nothing,
    StartDaemon,
    Quit,
    Copy(String),
    ShowQr(String),
    OpenFolder(String),
    MoveAll,
    ToggleAutoMove,
    ToggleTunnel,
    NewPin,
}

#[derive(Clone, Debug)]
pub enum MenuEntry {
    Item { label: String, enabled: bool, action: Action },
    Check { label: String, checked: bool, action: Action },
    Separator,
}

pub enum ActionView {
    Nothing,
    StartDaemon,
    Quit,
    Copy(Seq<char>),
    ShowQr(Seq<char>),
    OpenFolder(Seq<char>),
    MoveAll,
    ToggleAutoMove,
    ToggleTunnel,
    NewPin,
}

pub enum EntryView {
    Item { label: Seq<char>, enabled: bool, action: ActionView },
    Check { label: Seq<char>, checked: bool, action: ActionView },
    Separator,
}

impl View for Action {
    type V = ActionView;

    open spec fn view(&self) -> ActionView {
        match self {
            Action::Nothing => ActionView::Nothing,
            Action::StartDaemon => ActionView::StartDaemon,
            Action::Quit => ActionView::Quit,
            Action::Copy(s) => ActionView::Copy(s@),
            Action::ShowQr(s) => ActionView::ShowQr(s@),
            Action::OpenFolder(s) => ActionView::OpenFolder(s@),
            Action::MoveAll => ActionView::MoveAll,
            Action::ToggleAutoMove => ActionView::ToggleAutoMove,
            Action::ToggleTunnel => ActionView::ToggleTunnel,
            Action::NewPin => ActionView::NewPin,
        }
    }
}

impl View for MenuEntry {
    type V = EntryView;

    open spec fn view(&self) -> EntryView {
        match self {
            MenuEntry::Item { label, enabled, action } => EntryView::Item {
                label: label@,
                enabled: *enabled,
                action: action@,
            },
            MenuEntry::Check { label, checked, action } => EntryView::Check {
                label: label@,
                checked: *checked,
                action: action@,
            },
            MenuEntry::Separator => EntryView::Separator,
        }
    }
}

pub open spec fn entries_view(v: Seq<MenuEntry>) -> Seq<EntryView> {
    v.map_values(|e: MenuEntry| e@)
}

/// `url` without any leading `https://`, as `trim_start_matches` strips it.
pub open spec fn short_url(url: Seq<char>) -> Seq<char>
    decreases url.len(),
{
    if url.len() >= 8 && starts_with(url, "https://"@) {
        short_url(url.skip(8))
    } else {
        url
    }
}

/// The tunnel URL without its scheme, for the menu.
pub fn short(url: &str) -> (out: String)
    ensures
        out@ == short_url(url@),
{
    proof {
        reveal_strlit("https://");
    }
    let u = chars_of(url);
    let scheme = chars_of("https://");
    let mut i: usize = 0;
    assert(u@.skip(0) =~= u@);
    while u.len() - i >= 8 && crate::text::matches_at_exec(&u, &scheme, i)
        invariant
            i <= u.len(),
            u@ == url@,
            scheme@ == "https://"@,
            "https://"@.len() == 8,
            short_url(url@) == short_url(u@.skip(i as int)),
        decreases u.len() - i,
    {
        assert(u@.skip(i as int).subrange(0, 8) =~= u@.subrange(i as int, i + 8));
        assert(u@.skip(i as int).skip(8) =~= u@.skip(i + 8));
        i = i + 8;
    }
    proof {
        if u@.skip(i as int).len() >= 8 {
            assert(u@.skip(i as int).subrange(0, 8) =~= u@.subrange(i as int, i + 8));
        }
    }
    let rest = slice_chars(&u, i, u.len());
    assert(rest@ =~= u@.skip(i as int));
    string_of(&rest)
}

/// The name of the folder "Move all" moves into: the last component of the
/// target, or `Downloads`.
pub open spec fn target_name(move_target: Seq<char>) -> Seq<char> {
    match file_name(move_target) {
        Some(n) => n,
        None => "Downloads"@,
    }
}

pub open spec fn files_label(n: nat) -> Seq<char> {
    if n == 0 {
        "Drop folder is empty"@
    } else if n == 1 {
        "1 file waiting"@
    } else {
        decimal(n) + " files waiting"@
    }
}

pub open spec fn peers_label(n: nat) -> Seq<char> {
    if n == 1 { "1 other device nearby"@ } else { decimal(n) + " other devices nearby"@ }
}

pub open spec fn item(label: Seq<char>, enabled: bool, action: ActionView) -> EntryView {
    EntryView::Item { label, enabled, action }
}

pub open spec fn menu_head(s: Status) -> Seq<EntryView> {
    seq![
        item("Receiving as “"@ + s.name@ + "”"@, false, ActionView::Nothing),
        EntryView::Separator,
        item("PIN  "@ + s.pin@, true, ActionView::Copy(s.pin@)),
        item(s.local_url@, true, ActionView::Copy(s.local_url@)),
    ]
}

pub open spec fn menu_tunnel(s: Status) -> Seq<EntryView> {
    match s.tunnel_url {
        Some(u) => seq![item("Internet: "@ + short_url(u@), true, ActionView::Copy(u@))],
        None => if s.tunnel_enabled {
            seq![item("Internet: starting…"@, false, ActionView::Nothing)]
        } else {
            Seq::empty()
        },
    }
}

pub open spec fn menu_middle(s: Status) -> Seq<EntryView> {
    let qr = match s.tunnel_url {
        Some(u) => u@,
        None => s.local_url@,
    };
    seq![
        item("Show QR code…"@, true, ActionView::ShowQr(qr)),
        EntryView::Separator,
        item(files_label(s.files_waiting as nat), false, ActionView::Nothing),
    ] + if s.peers > 0 {
        seq![item(peers_label(s.peers as nat), false, ActionView::Nothing)]
    } else {
        Seq::empty()
    }
}

pub open spec fn menu_tail(s: Status) -> Seq<EntryView> {
    let target = target_name(s.move_target@);
    seq![
        item("Open Drop folder"@, true, ActionView::OpenFolder(s.dir@)),
        item("Move all to "@ + target, s.files_waiting > 0, ActionView::MoveAll),
        EntryView::Check {
            label: "Always move to "@ + target,
            checked: s.auto_move,
            action: ActionView::ToggleAutoMove,
        },
        EntryView::Separator,
        EntryView::Check {
            label: "Reachable from the internet"@,
            checked: s.tunnel_enabled,
            action: ActionView::ToggleTunnel,
        },
        item("New PIN"@, true, ActionView::NewPin),
        EntryView::Separator,
        item("Quit"@, true, ActionView::Quit),
    ]
}

/// The menu for a daemon that answered with `s`: who it receives as, the
/// PIN and addresses to copy, the QR, what is waiting and nearby, the folder
/// actions and the switches.
pub open spec fn running_menu(s: Status) -> Seq<EntryView> {
    menu_head(s) + menu_tunnel(s) + menu_middle(s) + menu_tail(s)
}

/// A menu entry that moves the waiting files.
pub open spec fn is_move_all(e: EntryView) -> bool {
    match e {
        EntryView::Item { action: ActionView::MoveAll, .. } => true,
        _ => false,
    }
}

/// Whether `e` is a clickable entry.
pub open spec fn is_enabled(e: EntryView) -> bool {
    match e {
        EntryView::Item { enabled, .. } => enabled,
        _ => false,
    }
}

/// The running menu offers "Move all to <folder>", and it is clickable
/// exactly when at least one file waits: every entry that moves the files
/// is enabled if and only if `files_waiting` is not zero.
pub proof fn lemma_move_all_enabled(s: Status)
    ensures
        exists|i: int|
            0 <= i < running_menu(s).len() && running_menu(s)[i] == (EntryView::Item {
                label: "Move all to "@ + target_name(s.move_target@),
                enabled: s.files_waiting > 0,
                action: ActionView::MoveAll,
            }),
        forall|i: int|
            0 <= i < running_menu(s).len() && is_move_all(#[trigger] running_menu(s)[i]) ==> (is_enabled(
                running_menu(s)[i],
            ) <==> s.files_waiting >= 1),
{
    let a = menu_head(s);
    let b = menu_tunnel(s);
    let c = menu_middle(s);
    let d = menu_tail(s);
    let m = running_menu(s);
    let pre = a + b + c;
    assert(m == pre + d);
    let k: int = pre.len() as int + 1;
    assert(m[k] == d[1]);
    assert forall|i: int| 0 <= i < m.len() && is_move_all(#[trigger] m[i]) implies (is_enabled(m[i])
        <==> s.files_waiting >= 1) by {
        if i < a.len() {
            assert(m[i] == a[i]);
        } else if i < a.len() + b.len() {
            assert(m[i] == b[i - a.len()]);
        } else if i < pre.len() {
            assert(m[i] == c[i - a.len() - b.len()]);
            let c3 = seq![
                item("Show QR code…"@, true, ActionView::ShowQr(match s.tunnel_url {
                    Some(u) => u@,
                    None => s.local_url@,
                })),
                EntryView::Separator,
                item(files_label(s.files_waiting as nat), false, ActionView::Nothing),
            ];
            let j = i - a.len() - b.len();
            if j >= 3 {
                assert(c[j] == item(peers_label(s.peers as nat), false, ActionView::Nothing));
            } else {
                assert(c[j] == c3[j]);
            }
        } else {
            assert(m[i] == d[i - pre.len()]);
        }
    }
}

/// The menu when the daemon did not answer.
pub open spec fn idle_menu() -> Seq<EntryView> {
    seq![
        item("Daemon not running"@, false, ActionView::Nothing),
        EntryView::Separator,
        item("Start it"@, true, ActionView::StartDaemon),
        EntryView::Separator,
        item("Quit"@, true, ActionView::Quit),
    ]
}

fn text(parts: &str) -> (s: String)
    ensures
        s@ == parts@,
{
    let c = chars_of(parts);
    string_of(&c)
}

fn push_item(v: &mut Vec<MenuEntry>, label: String, enabled: bool, action: Action)
    ensures
        entries_view(final(v)@) == entries_view(old(v)@).push(item(label@, enabled, action@)),
{
    v.push(MenuEntry::Item { label, enabled, action });
    assert(entries_view(v@) =~= entries_view(old(v)@).push(item(label@, enabled, action@)));
}

fn push_entry(v: &mut Vec<MenuEntry>, e: MenuEntry)
    ensures
        entries_view(final(v)@) == entries_view(old(v)@).push(e@),
{
    v.push(e);
    assert(entries_view(v@) =~= entries_view(old(v)@).push(e@));
}

fn concat(a: &str, b: &str) -> (s: String)
    ensures
        s@ == a@ + b@,
{
    let mut v = chars_of(a);
    crate::text::extend_str(&mut v, b);
    string_of(&v)
}

fn count_label(n: usize, many: &str) -> (s: String)
    ensures
        s@ == decimal(n as nat) + many@,
{
    let mut v: Vec<char> = Vec::new();
    push_decimal(&mut v, n as u64);
    extend_str(&mut v, many);
    string_of(&v)
}

fn push_head(v: &mut Vec<MenuEntry>, s: &Status)
    ensures
        entries_view(final(v)@) == entries_view(old(v)@) + menu_head(*s),
{
    let mut name = chars_of("Receiving as “");
    extend_str(&mut name, s.name.as_str());
    extend_str(&mut name, "”");
    push_item(v, string_of(&name), false, Action::Nothing);
    push_entry(v, MenuEntry::Separator);
    push_item(v, concat("PIN  ", s.pin.as_str()), true, Action::Copy(s.pin.clone()));
    push_item(v, s.local_url.clone(), true, Action::Copy(s.local_url.clone()));
    assert(entries_view(v@) =~= entries_view(old(v)@) + menu_head(*s));
}

fn push_tunnel(v: &mut Vec<MenuEntry>, s: &Status)
    ensures
        entries_view(final(v)@) == entries_view(old(v)@) + menu_tunnel(*s),
{
    match &s.tunnel_url {
        Some(u) => {
            let sh = short(u.as_str());
            push_item(v, concat("Internet: ", sh.as_str()), true, Action::Copy(u.clone()));
        },
        None => {
            if s.tunnel_enabled {
                push_item(v, text("Internet: starting…"), false, Action::Nothing);
            }
        },
    }
    assert(entries_view(v@) =~= entries_view(old(v)@) + menu_tunnel(*s));
}

fn push_middle(v: &mut Vec<MenuEntry>, s: &Status)
    ensures
        entries_view(final(v)@) == entries_view(old(v)@) + menu_middle(*s),
{
    let qr = match &s.tunnel_url {
        Some(u) => u.clone(),
        None => s.local_url.clone(),
    };
    push_item(v, text("Show QR code…"), true, Action::ShowQr(qr));
    push_entry(v, MenuEntry::Separator);
    let files = if s.files_waiting == 0 {
        text("Drop folder is empty")
    } else if s.files_waiting == 1 {
        text("1 file waiting")
    } else {
        count_label(s.files_waiting, " files waiting")
    };
    push_item(v, files, false, Action::Nothing);
    if s.peers > 0 {
        let peers = if s.peers == 1 {
            text("1 other device nearby")
        } else {
            count_label(s.peers, " other devices nearby")
        };
        push_item(v, peers, false, Action::Nothing);
    }
    assert(entries_view(v@) =~= entries_view(old(v)@) + menu_middle(*s));
}

fn push_tail(v: &mut Vec<MenuEntry>, s: &Status)
    ensures
        entries_view(final(v)@) == entries_view(old(v)@) + menu_tail(*s),
{
    let target = s.target_name();
    push_item(v, text("Open Drop folder"), true, Action::OpenFolder(s.dir.clone()));
    push_item(v, concat("Move all to ", target.as_str()), s.files_waiting > 0, Action::MoveAll);
    push_entry(
        v,
        MenuEntry::Check {
            label: concat("Always move to ", target.as_str()),
            checked: s.auto_move,
            action: Action::ToggleAutoMove,
        },
    );
    push_entry(v, MenuEntry::Separator);
    push_entry(
        v,
        MenuEntry::Check {
            label: text("Reachable from the internet"),
            checked: s.tunnel_enabled,
            action: Action::ToggleTunnel,
        },
    );
    push_item(v, text("New PIN"), true, Action::NewPin);
    push_entry(v, MenuEntry::Separator);
    push_item(v, text("Quit"), true, Action::Quit);
    assert(entries_view(v@) =~= entries_view(old(v)@) + menu_tail(*s));
}

impl Status {
    /// The folder name shown in the "Move all" entries.
    pub fn target_name(&self) -> (out: String)
        ensures
            out@ == target_name(self.move_target@),
    {
        let mt = chars_of(self.move_target.as_str());
        match file_name_of(&mt) {
            Some(n) => string_of(&n),
            None => text("Downloads"),
        }
    }
}

impl DropTray {
    /// `http://127.0.0.1:{port}{path}`, the daemon's control address.
    pub fn url(&self, path: &str) -> (out: String)
        ensures
            out@ == crate::config::url_for("127.0.0.1"@, self.port) + path@,
    {
        let base = crate::config::http_url("127.0.0.1", self.port);
        concat(base.as_str(), path)
    }

    pub fn id(&self) -> (out: String)
        ensures
            out@ == "drop"@,
    {
        text("drop")
    }

    pub fn title(&self) -> (out: String)
        ensures
            out@ == match self.status {
                Some(s) => "Drop — "@ + s.name@,
                None => "Drop — not running"@,
            },
    {
        match &self.status {
            Some(s) => concat("Drop — ", s.name.as_str()),
            None => text("Drop — not running"),
        }
    }

    pub fn icon_name(&self) -> (out: String)
        ensures
            out@ == match self.status {
                Some(s) => if s.files_waiting > 0 {
                    "folder-download"@
                } else {
                    "network-transmit-receive"@
                },
                None => "network-offline"@,
            },
    {
        match &self.status {
            Some(s) => if s.files_waiting > 0 {
                text("folder-download")
            } else {
                text("network-transmit-receive")
            },
            None => text("network-offline"),
        }
    }

    /// The tooltip's body.
    pub fn tool_tip_text(&self) -> (out: String)
        ensures
            out@ == match self.status {
                Some(s) => s.local_url@ + "\nPIN "@ + s.pin@ + "\n"@ + decimal(s.files_waiting as nat)
                    + " waiting"@,
                None => "Daemon not reachable"@,
            },
    {
        match &self.status {
            Some(s) => {
                let mut v = chars_of(s.local_url.as_str());
                extend_str(&mut v, "\nPIN ");
                extend_str(&mut v, s.pin.as_str());
                extend_str(&mut v, "\n");
                push_decimal(&mut v, s.files_waiting as u64);
                extend_str(&mut v, " waiting");
                string_of(&v)
            },
            None => text("Daemon not reachable"),
        }
    }

    /// The menu entries, top to bottom.
    pub fn menu(&self) -> (out: Vec<MenuEntry>)
        ensures
            entries_view(out@) == match self.status {
                Some(s) => running_menu(s),
                None => idle_menu(),
            },
    {
        let mut v: Vec<MenuEntry> = Vec::new();
        let s = match &self.status {
            None => {
                push_item(&mut v, text("Daemon not running"), false, Action::Nothing);
                push_entry(&mut v, MenuEntry::Separator);
                push_item(&mut v, text("Start it"), true, Action::StartDaemon);
                push_entry(&mut v, MenuEntry::Separator);
                push_item(&mut v, text("Quit"), true, Action::Quit);
                assert(entries_view(v@) =~= idle_menu());
                return v;
            },
            Some(s) => s,
        };
        push_head(&mut v, s);
        push_tunnel(&mut v, s);
        push_middle(&mut v, s);
        push_tail(&mut v, s);
        assert(entries_view(v@) =~= running_menu(*s));
        v
    }

    /// Flips "Always move" in the shown status and returns the new setting.
    pub fn toggle_auto_move(&mut self) -> (next: bool)
        ensures
            next == !match old(self).status {
                Some(s) => s.auto_move,
                None => false,
            },
            final(self).port == old(self).port,
            final(self).status == match old(self).status {
                Some(s) => Some(Status { auto_move: next, ..s }),
                None => None,
            },
    {
        let next = !match &self.status {
            Some(s) => s.auto_move,
            None => false,
        };
        if let Some(st) = &mut self.status {
            st.auto_move = next;
        }
        next
    }

    /// Flips "Reachable from the internet" in the shown status and returns
    /// the new setting.
    pub fn toggle_tunnel(&mut self) -> (next: bool)
        ensures
            next == !match old(self).status {
                Some(s) => s.tunnel_enabled,
                None => false,
            },
            final(self).port == old(self).port,
            final(self).status == match old(self).status {
                Some(s) => Some(Status { tunnel_enabled: next, ..s }),
                None => None,
            },
    {
        let next = !match &self.status {
            Some(s) => s.tunnel_enabled,
            None => false,
        };
        if let Some(st) = &mut self.status {
            st.tunnel_enabled = next;
        }
        next
    }
}

/// What the indicator does with the daemon's received-file counter: the
/// first reading only seeds it, so a backlog from before the indicator
/// started is not announced; a later, larger reading is announced as the
/// difference.
pub fn arrivals(seen: Option<u64>, received: u64) -> (r: (Option<u64>, Option<u64>))
    ensures
        r == match seen {
            None => (Some(received), None::<u64>),
            Some(prev) => if received > prev {
                (Some(received), Some((received - prev) as u64))
            } else {
                (seen, None)
            },
        },
{
    match seen {
        None => (Some(received), None),
        Some(prev) => if received > prev {
            (Some(received), Some(received - prev))
        } else {
            (seen, None)
        },
    }
}

/// The desktop notification for `count` new files in `dir`.
pub fn arrival_message(count: u64, dir: &str) -> (out: String)
    ensures
        out@ == if count == 1 {
            "1 new file in "@ + dir@
        } else {
            decimal(count as nat) + " new files in "@ + dir@
        },
{
    if count == 1 {
        concat("1 new file in ", dir)
    } else {
        let mut v: Vec<char> = Vec::new();
        push_decimal(&mut v, count);
        extend_str(&mut v, " new files in ");
        extend_str(&mut v, dir);
        string_of(&v)
    }
}

} // verus!
