//! The Cloudflare quick tunnel's public URL, as `cloudflared` logs it.
//!
//! Quick tunnels need no account, but the hostname is random and changes every
//! restart, so the daemon reads it out of the child's stderr.

use vstd::prelude::*;
use crate::text::{in_set, matches_at, 
    chars_of, contains, contains_exec, find, find_exec, is_space, is_space_char, lemma_find_from_bounds,
    slice_chars, starts_with, string_of, trim_end, trimmed_end, views, Trim,
};

verus! {

pub const BIN: &'static str = "cloudflared";

/// Characters that end a URL in a log line: whitespace, `|` and `"`.
pub open spec fn url_stop(c: char) -> bool {
    is_space(c) || c == '|' || c == '"'
}

/// The length of the run before the first stop character.
pub open spec fn run_len(s: Seq<char>) -> nat
    decreases s.len(),
{
    if s.len() == 0 || url_stop(s[0]) {
        0
    } else {
        1 + run_len(s.drop_first())
    }
}

/// The tunnel URL in `line`: from the first `https://` up to whitespace, `|`
/// or `"`, without trailing `.` or `,`, if it names a `.trycloudflare.com` host.
pub open spec fn tunnel_url(line: Seq<char>) -> Option<Seq<char>> {
    match find(line, "https://"@) {
        None => None,
        Some(start) => {
            let rest = line.skip(start);
            let url = trim_end(rest.take(run_len(rest) as int), Trim::DotComma);
            if contains(url, ".trycloudflare.com"@) { Some(url) } else { None }
        },
    }
}

fn run_len_exec(s: &Vec<char>, from: usize) -> (n: usize)
    requires
        from <= s.len(),
    ensures
        n == run_len(s@.skip(from as int)),
        from + n <= s.len(),
{
    let mut i: usize = from;
    while i < s.len() && !(is_space_char(s[i]) || s[i] == '|' || s[i] == '"')
        invariant
            from <= i <= s.len(),
            run_len(s@.skip(from as int)) == (i - from) + run_len(s@.skip(i as int)),
        decreases s.len() - i,
    {
        assert(s@.skip(i as int).drop_first() =~= s@.skip(i + 1));
        i = i + 1;
    }
    i - from
}

/// Pulls `https://<something>.trycloudflare.com` out of a log line.
pub fn extract_url(line: &str) -> (r: Option<String>)
    ensures
        match r {
            Some(u) => tunnel_url(line@) == Some(u@),
            None => tunnel_url(line@) is None,
        },
{
    let lc = chars_of(line);
    let scheme = chars_of("https://");
    let start = match find_exec(&lc, &scheme) {
        None => return None,
        Some(i) => i,
    };
    proof {
        lemma_find_from_bounds(lc@, scheme@, 0);
    }
    let n = run_len_exec(&lc, start);
    let run = slice_chars(&lc, start, start + n);
    assert(run@ =~= line@.skip(start as int).take(n as int));
    let url = trimmed_end(&run, Trim::DotComma);
    let host = chars_of(".trycloudflare.com");
    if contains_exec(&url, &host) {
        Some(string_of(&url))
    } else {
        None
    }
}

proof fn lemma_run_len(s: Seq<char>)
    ensures
        run_len(s) <= s.len(),
        forall|j: int| 0 <= j < run_len(s) ==> !url_stop(s[j]),
    decreases s.len(),
{
    if s.len() > 0 && !url_stop(s[0]) {
        lemma_run_len(s.drop_first());
        assert forall|j: int| 0 <= j < run_len(s) implies !url_stop(s[j]) by {
            if j > 0 {
                assert(s[j] == s.drop_first()[j - 1]);
            }
        }
    }
}

proof fn lemma_run_len_at_least(s: Seq<char>, k: nat)
    requires
        k <= s.len(),
        forall|j: int| 0 <= j < k ==> !url_stop(s[j]),
    ensures
        run_len(s) >= k,
    decreases k,
{
    if k > 0 {
        assert forall|j: int| 0 <= j < k - 1 implies !url_stop(s.drop_first()[j]) by {
            assert(s.drop_first()[j] == s[j + 1]);
        }
        lemma_run_len_at_least(s.drop_first(), (k - 1) as nat);
    }
}

/// `trim_end` stops at a character outside the set: it keeps everything up
/// to and including position `m`.
proof fn lemma_trim_end_keeps(s: Seq<char>, set: Trim, m: int)
    requires
        0 <= m < s.len(),
        !in_set(set, s[m]),
    ensures
        trim_end(s, set).len() > m,
        trim_end(s, set).len() <= s.len(),
        trim_end(s, set) == s.take(trim_end(s, set).len() as int),
    decreases s.len(),
{
    if in_set(set, s.last()) {
        assert(m < s.len() - 1);
        assert(s.drop_last()[m] == s[m]);
        lemma_trim_end_keeps(s.drop_last(), set, m);
        assert(s.drop_last().take(trim_end(s, set).len() as int) =~= s.take(trim_end(s, set).len() as int));
    } else {
        assert(s.take(s.len() as int) =~= s);
    }
}

/// A URL read from a log line starts with `https://`, names a
/// `.trycloudflare.com` host, and holds no whitespace, `|` or `"`.
pub proof fn lemma_tunnel_url_shape(line: Seq<char>)
    ensures
        tunnel_url(line) matches Some(u) ==> {
            &&& starts_with(u, "https://"@)
            &&& contains(u, ".trycloudflare.com"@)
            &&& forall|j: int| 0 <= j < u.len() ==> !url_stop(#[trigger] u[j])
        },
{
    reveal_strlit("https://");
    if let Some(start) = find(line, "https://"@) {
        lemma_find_from_bounds(line, "https://"@, 0);
        let rest = line.skip(start);
        assert(rest.take(8) =~= "https://"@);
        assert forall|j: int| 0 <= j < 8 implies !url_stop(rest[j]) by {
            assert(rest[j] == "https://"@[j]);
        }
        lemma_run_len_at_least(rest, 8);
        lemma_run_len(rest);
        let run = rest.take(run_len(rest) as int);
        assert(run[7] == '/');
        lemma_trim_end_keeps(run, Trim::DotComma, 7);
        let u = trim_end(run, Trim::DotComma);
        assert(u.subrange(0, 8) =~= "https://"@) by {
            assert forall|j: int| 0 <= j < 8 implies u[j] == "https://"@[j] by {
                assert(u[j] == run[j]);
            }
        }
        assert forall|j: int| 0 <= j < u.len() implies !url_stop(#[trigger] u[j]) by {
            assert(u[j] == run[j]);
        }
    }
}

/// Calls `Path::is_file` on `path`. What is on disk decides; nothing is
/// claimed.
#[verifier::external_body]
fn is_file(path: &Vec<char>) -> bool {
    let s: String = path.iter().collect();
    std::path::Path::new(&s).is_file()
}

/// The paths where `cloudflared` may be installed: `BIN` joined to each of
/// the `:`-separated directories of `path`, in order.
pub open spec fn candidates(path: Seq<char>) -> Seq<Seq<char>> {
    crate::text::split(path, ':').map_values(|d: Seq<char>| crate::net::join(d, BIN@))
}

/// The paths `available` looks at for a `PATH` of `path`.
pub fn tunnel_candidates(path: &str) -> (out: Vec<Vec<char>>)
    ensures
        views(out@) == candidates(path@),
{
    let pc = chars_of(path);
    let dirs = crate::text::split_exec(&pc, ':');
    let bin = chars_of(BIN);
    let mut out: Vec<Vec<char>> = Vec::new();
    let mut i: usize = 0;
    assert(candidates(path@).len() == views(dirs@).len());
    assert(views(out@) =~= candidates(path@).take(0));
    while i < dirs.len()
        invariant
            i <= dirs.len(),
            bin@ == BIN@,
            views(dirs@) == crate::text::split(path@, ':'),
            candidates(path@).len() == dirs@.len(),
            out@.len() == i,
            views(out@) == candidates(path@).take(i as int),
        decreases dirs.len() - i,
    {
        assert(views(dirs@)[i as int] == dirs@[i as int]@);
        assert(candidates(path@)[i as int] == crate::net::join(dirs@[i as int]@, BIN@));
        let c = crate::net::join_exec(&dirs[i], &bin);
        let ghost before = out@;
        out.push(c);
        assert(out@[i as int]@ == candidates(path@)[i as int]);
        assert forall|j: int| 0 <= j < i implies out@[j]@ == candidates(path@)[j] by {
            assert(out@[j] == before[j]);
            assert(views(before)[j] == candidates(path@).take(i as int)[j]);
        }
        assert(views(out@) =~= candidates(path@).take(i + 1));
        i = i + 1;
    }
    assert(candidates(path@).take(dirs.len() as int) =~= candidates(path@));
    out
}

/// Whether any of the answers is yes.
pub fn any_found(found: &Vec<bool>) -> (r: bool)
    ensures
        r == found@.contains(true),
{
    let mut i: usize = 0;
    while i < found.len()
        invariant
            i <= found.len(),
            forall|j: int| 0 <= j < i ==> !found@[j],
        decreases found.len() - i,
    {
        if found[i] {
            assert(found@[i as int] == true);
            return true;
        }
        i = i + 1;
    }
    false
}

/// Whether `cloudflared` is installed: a file at one of the
/// `tunnel_candidates` of `path_var`, the value of `PATH`, each tested in
/// order until one is found. What is on disk gives the answers; without a
/// `PATH` it is not installed.
pub fn available(path_var: Option<&str>) -> (r: bool)
    ensures
        path_var is None ==> !r,
        r ==> path_var is Some && candidates(path_var->0@).len() > 0,
        path_var matches Some(p) ==> exists|found: Seq<bool>|
            found.len() == candidates(p@).len() && r == #[trigger] found.contains(true),
{
    let p = match path_var {
        Some(p) => p,
        None => return false,
    };
    let paths = tunnel_candidates(p);
    let mut answers: Vec<bool> = Vec::new();
    let mut i: usize = 0;
    while i < paths.len()
        invariant
            i <= paths.len(),
            paths@.len() == candidates(p@).len(),
            path_var is Some && path_var->0@ == p@,
            answers@.len() == i,
            forall|j: int| 0 <= j < i ==> !answers@[j],
        decreases paths.len() - i,
    {
        let hit = is_file(&paths[i]);
        answers.push(hit);
        if hit {
            let r = any_found(&answers);
            let ghost found = answers@ + Seq::new((paths@.len() - answers@.len()) as nat, |j: int| false);
            assert(found[i as int] == true);
            assert(found.contains(true));
            assert(answers@[i as int] == true);
            assert(r);
            return r;
        }
        i = i + 1;
    }
    let r = any_found(&answers);
    proof {
        if answers@.contains(true) {
            let j = choose|j: int| 0 <= j < answers@.len() && answers@[j] == true;
        }
    }
    r
}

} // verus!
