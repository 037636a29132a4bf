//! Filename and size helpers.

use vstd::prelude::*;
use crate::config::random_hex;
use crate::crypto::hex_lower;
use crate::text::{
    alphanumeric, chars_eq, chars_of, decimal, extend_chars, extend_str, alnum,
    last_index, last_index_exec, push_decimal, slice_chars, split, split_exec, string_of,
    trim_both, trimmed, views, Trim, in_set, lemma_split_pieces, lemma_trim_both, split_from,
};

verus! {

/// The last component of a `/`-separated path that names something, skipping
/// empty and `.` components; `None` when there is none or it is `..`. This is
/// `Path::file_name` on a Unix path.
pub open spec fn last_named(segs: Seq<Seq<char>>) -> Option<Seq<char>>
    decreases segs.len(),
{
    if segs.len() == 0 {
        None
    } else if segs.last() == Seq::<char>::empty() || segs.last() == "."@ {
        last_named(segs.drop_last())
    } else if segs.last() == ".."@ {
        None
    } else {
        Some(segs.last())
    }
}

pub open spec fn file_name(path: Seq<char>) -> Option<Seq<char>> {
    last_named(split(path, '/'))
}

/// Characters a sanitised name keeps; anything else becomes `_`.
pub open spec fn keep_char(c: char) -> bool {
    alnum(c) || c == ' ' || c == '.' || c == '-' || c == '_' || c == '(' || c == ')'
        || c == '[' || c == ']'
}

pub open spec fn sanitize(s: Seq<char>) -> Seq<char> {
    s.map_values(|c: char| if keep_char(c) { c } else { '_' })
}

/// The name an upload is saved under, before collisions are considered: the
/// final path component, exotic characters replaced by `_`, dots and spaces
/// trimmed from both ends, and `untitled` when nothing is left.
pub open spec fn clean_name(raw: Seq<char>) -> Seq<char> {
    let base = match file_name(raw) {
        Some(b) => b,
        None => "untitled"@,
    };
    let t = trim_both(sanitize(base), Trim::DotSpace);
    if t.len() == 0 { "untitled"@ } else { t }
}

/// A file name split at its last `.` into stem and extension, where a leading
/// `.` does not count (`Path::file_stem`, `Path::extension`).
pub open spec fn split_ext(name: Seq<char>) -> (Seq<char>, Option<Seq<char>>) {
    match last_index(name, '.') {
        Some(i) if i > 0 => (name.take(i), Some(name.skip(i + 1))),
        _ => (name, None),
    }
}

/// `{stem} ({n}).{ext}`, or `{stem} ({n})` without an extension.
pub open spec fn numbered(stem: Seq<char>, ext: Option<Seq<char>>, n: nat) -> Seq<char> {
    let base = stem + " ("@ + decimal(n) + ")"@;
    match ext {
        Some(e) => base + "."@ + e,
        None => base,
    }
}

/// `folder` joined with a relative name (`Path::join`).
pub open spec fn join(folder: Seq<char>, name: Seq<char>) -> Seq<char> {
    if folder.len() == 0 {
        name
    } else if folder.last() == '/' {
        folder + name
    } else {
        folder + "/"@ + name
    }
}

/// The final named component of `path`.
pub fn file_name_of(path: &Vec<char>) -> (r: Option<Vec<char>>)
    ensures
        match r {
            Some(n) => file_name(path@) == Some(n@),
            None => file_name(path@) is None,
        },
{
    let segs = split_exec(path, '/');
    let mut j: usize = segs.len();
    assert(views(segs@).take(j as int) =~= views(segs@));
    let dot = vec!['.'];
    let dotdot = vec!['.', '.'];
    let empty: Vec<char> = Vec::new();
    proof {
        reveal_strlit(".");
        reveal_strlit("..");
        assert(dot@ =~= "."@);
        assert(dotdot@ =~= ".."@);
        assert(empty@ =~= Seq::<char>::empty());
    }
    while j > 0
        invariant
            j <= segs.len(),
            dot@ == "."@,
            dotdot@ == ".."@,
            empty@ == Seq::<char>::empty(),
            file_name(path@) == last_named(views(segs@).take(j as int)),
        decreases j,
    {
        let seg = &segs[j - 1];
        let ghost vs = views(segs@).take(j as int);
        assert(vs.last() == seg@);
        if chars_eq(seg, &empty) || chars_eq(seg, &dot) {
            assert(vs.drop_last() =~= views(segs@).take(j - 1));
            j = j - 1;
        } else if chars_eq(seg, &dotdot) {
            return None;
        } else {
            return Some(seg.clone());
        }
    }
    assert(views(segs@).take(0) =~= Seq::<Seq<char>>::empty());
    None
}

fn untitled() -> (v: Vec<char>)
    ensures
        v@ == "untitled"@,
{
    let mut v: Vec<char> = Vec::new();
    extend_str(&mut v, "untitled");
    v
}

/// The sanitised name for an upload called `raw`; see `clean_name`.
pub fn clean(raw: &str) -> (out: Vec<char>)
    ensures
        out@ == clean_name(raw@),
        ascii_safe(out@),
{
    let rc = chars_of(raw);
    let base = match file_name_of(&rc) {
        Some(b) => b,
        None => untitled(),
    };
    let mut mapped: Vec<char> = Vec::new();
    let mut i: usize = 0;
    while i < base.len()
        invariant
            i <= base.len(),
            mapped@.len() == i,
            forall|j: int| 0 <= j < i ==> #[trigger] mapped@[j] == sanitize(base@)[j],
            ascii_safe(mapped@),
        decreases base.len() - i,
    {
        let c = base[i];
        let keep = alphanumeric(c) || c == ' ' || c == '.' || c == '-' || c == '_' || c == '('
            || c == ')' || c == '[' || c == ']';
        mapped.push(if keep { c } else { '_' });
        i = i + 1;
    }
    assert(mapped@ =~= sanitize(base@));
    let t = trimmed(&mapped, Trim::DotSpace);
    proof {
        crate::text::lemma_trim_both(mapped@, Trim::DotSpace);
        let (a, b) = choose|a: int, b: int| 0 <= a <= b <= mapped@.len() && t@ == #[trigger] mapped@.subrange(a, b);
        assert forall|j: int| 0 <= j < t@.len() implies #[trigger] t@[j] == mapped@[a + j] by {}
    }
    if t.len() == 0 {
        let u = untitled();
        proof {
            reveal_strlit("untitled");
        }
        u
    } else {
        t
    }
}

/// `folder` joined with `name`.
pub fn join_exec(folder: &Vec<char>, name: &Vec<char>) -> (out: Vec<char>)
    ensures
        out@ == join(folder@, name@),
{
    let mut out = folder.clone();
    if folder.len() > 0 && folder[folder.len() - 1] != '/' {
        out.push('/');
    }
    extend_chars(&mut out, name);
    proof {
        reveal_strlit("/");
    }
    assert(out@ =~= join(folder@, name@));
    out
}

/// Calls `Path::exists` on `path`. What is on disk decides; nothing is claimed.
#[verifier::external_body]
fn path_exists(path: &Vec<char>) -> bool {
    let s: String = path.iter().collect();
    std::path::Path::new(&s).exists()
}

fn split_ext_exec(name: &Vec<char>) -> (r: (Vec<char>, Option<Vec<char>>))
    ensures
        split_ext(name@) == (r.0@, match r.1 {
            Some(e) => Some(e@),
            None => None,
        }),
{
    match last_index_exec(name, '.') {
        Some(i) if i > 0 => {
            let stem = slice_chars(name, 0, i);
            let ext = slice_chars(name, i + 1, name.len());
            assert(stem@ =~= name@.take(i as int));
            assert(ext@ =~= name@.skip(i + 1));
            (stem, Some(ext))
        },
        _ => (name.clone(), None),
    }
}

fn numbered_exec(stem: &Vec<char>, ext: &Option<Vec<char>>, n: u64) -> (out: Vec<char>)
    ensures
        out@ == numbered(stem@, match ext {
            Some(e) => Some(e@),
            None => None,
        }, n as nat),
{
    let mut out = stem.clone();
    extend_str(&mut out, " (");
    push_decimal(&mut out, n);
    extend_str(&mut out, ")");
    match ext {
        Some(e) => {
            extend_str(&mut out, ".");
            extend_chars(&mut out, e);
        },
        None => {},
    }
    out
}

/// `out` is one of the paths `safe_name` can give for `raw` in `folder`:
/// one of its `candidate_names`, or the fallback with random hex.
pub open spec fn allowed_name(raw: Seq<char>, folder: Seq<char>, out: Seq<char>) -> bool {
    let c = clean_name(raw);
    let (stem, ext) = split_ext(c);
    ||| out == join(folder, c)
    ||| exists|n: nat| 2 <= n < 10000 && out == join(folder, #[trigger] numbered(stem, ext, n))
    ||| exists|h: Seq<u8>| h.len() == 4 && out == join(folder, stem + "-"@ + #[trigger] hex_lower(h))
}

/// The paths `safe_name` tries for `raw` in `folder`, in order: the
/// sanitised name, then `stem (n).ext` for `n` from 2 to 9999.
pub open spec fn candidate_names(raw: Seq<char>, folder: Seq<char>) -> Seq<Seq<char>> {
    let c = clean_name(raw);
    let (stem, ext) = split_ext(c);
    Seq::new(
        9999,
        |k: int| if k == 0 { join(folder, c) } else { join(folder, numbered(stem, ext, (k + 1) as nat)) },
    )
}

/// The first position at or after `j` that is not taken.
pub open spec fn first_free_from(taken: Seq<bool>, j: int) -> Option<int>
    decreases taken.len() - j,
{
    if j < 0 || j >= taken.len() {
        None
    } else if !taken[j] {
        Some(j)
    } else {
        first_free_from(taken, j + 1)
    }
}

proof fn lemma_first_free_at(taken: Seq<bool>, j: int, i: int)
    requires
        0 <= j <= i < taken.len(),
        !taken[i],
        forall|k: int| j <= k < i ==> taken[k],
    ensures
        first_free_from(taken, j) == Some(i),
    decreases i - j,
{
    if j < i {
        lemma_first_free_at(taken, j + 1, i);
    }
}

proof fn lemma_none_free(taken: Seq<bool>, j: int)
    requires
        0 <= j <= taken.len(),
        forall|k: int| j <= k < taken.len() ==> taken[k],
    ensures
        first_free_from(taken, j) is None,
    decreases taken.len() - j,
{
    if j < taken.len() {
        lemma_none_free(taken, j + 1);
    }
}

/// The first place in `taken` that is `false`.
pub fn first_free(taken: &Vec<bool>) -> (r: Option<usize>)
    ensures
        match r {
            Some(i) => first_free_from(taken@, 0) == Some(i as int),
            None => first_free_from(taken@, 0) is None,
        },
{
    let mut i: usize = 0;
    while i < taken.len()
        invariant
            i <= taken.len(),
            first_free_from(taken@, 0) == first_free_from(taken@, i as int),
        decreases taken.len() - i,
    {
        if !taken[i] {
            return Some(i);
        }
        i = i + 1;
    }
    None
}

/// The `k`-th of the `candidate_names` for the sanitised name `cleaned`.
fn candidate_at(
    fc: &Vec<char>,
    cleaned: &Vec<char>,
    stem: &Vec<char>,
    ext: &Option<Vec<char>>,
    k: usize,
    Ghost(raw): Ghost<Seq<char>>,
) -> (out: Vec<char>)
    requires
        k < 9999,
        cleaned@ == clean_name(raw),
        split_ext(cleaned@) == (stem@, match ext {
            Some(e) => Some(e@),
            None => None,
        }),
    ensures
        out@ == candidate_names(raw, fc@)[k as int],
{
    if k == 0 {
        join_exec(fc, cleaned)
    } else {
        join_exec(fc, &numbered_exec(stem, ext, (k + 1) as u64))
    }
}

/// Every path `safe_name` tries, in order.
pub fn name_candidates(raw: &str, folder: &str) -> (out: Vec<String>)
    ensures
        out@.len() == candidate_names(raw@, folder@).len(),
        forall|k: int| 0 <= k < out@.len() ==> #[trigger] out@[k]@ == candidate_names(raw@, folder@)[k],
{
    let cleaned = clean(raw);
    let fc = chars_of(folder);
    let (stem, ext) = split_ext_exec(&cleaned);
    let mut out: Vec<String> = Vec::new();
    let mut k: usize = 0;
    while k < 9999
        invariant
            k <= 9999,
            fc@ == folder@,
            cleaned@ == clean_name(raw@),
            split_ext(cleaned@) == (stem@, match ext {
                Some(e) => Some(e@),
                None => None,
            }),
            out@.len() == k,
            forall|j: int| 0 <= j < k ==> #[trigger] out@[j]@ == candidate_names(raw@, folder@)[j],
        decreases 9999 - k,
    {
        let c = candidate_at(&fc, &cleaned, &stem, &ext, k, Ghost(raw@));
        out.push(string_of(&c));
        k = k + 1;
    }
    out
}

/// The characters an ASCII character of a sanitised name can be: a letter,
/// a digit, or one of ` .-_()[]`.
pub open spec fn ascii_safe(s: Seq<char>) -> bool {
    forall|j: int|
        0 <= j < s.len() && (s[j] as u32) < 128 ==> {
            let c = #[trigger] s[j];
            ||| ('0' <= c <= '9' || 'a' <= c <= 'z' || 'A' <= c <= 'Z')
            ||| c == ' ' || c == '.' || c == '-' || c == '_' || c == '(' || c == ')' || c == '[' || c == ']'
        }
}

pub open spec fn opt_chars(r: Option<String>) -> Option<Seq<char>> {
    match r {
        Some(s) => Some(s@),
        None => None,
    }
}

/// What `safe_name` gives, for the existence answers `taken` of its
/// `candidate_names`: the first candidate not taken, or, when all are, the
/// fallback `stem-xxxxxxxx` for some four random bytes (`None` when the
/// system RNG gives none).
pub open spec fn named_for(raw: Seq<char>, folder: Seq<char>, taken: Seq<bool>, r: Option<Seq<char>>) -> bool {
    let (stem, ext) = split_ext(clean_name(raw));
    match first_free_from(taken, 0) {
        Some(i) => r == Some(candidate_names(raw, folder)[i]),
        None => match r {
            Some(out) => exists|h: Seq<u8>| h.len() == 4 && out == join(folder, stem + "-"@ + #[trigger] hex_lower(h)),
            None => true,
        },
    }
}

/// Where to save an upload called `raw` in `folder` without overwriting:
/// the first of its `candidate_names` that does not exist on disk, or,
/// failing all of those, `stem-xxxxxxxx` with eight random hex digits. The
/// existence answers come from the disk, read in order until one is free.
pub fn safe_name(raw: &str, folder: &str) -> (r: Option<String>)
    ensures
        exists|taken: Seq<bool>|
            taken.len() == candidate_names(raw@, folder@).len() && #[trigger] named_for(
                raw@,
                folder@,
                taken,
                opt_chars(r),
            ),
        r matches Some(out) ==> allowed_name(raw@, folder@, out@),
        ascii_safe(clean_name(raw@)),
{
    let cleaned = clean(raw);
    let fc = chars_of(folder);
    let (stem, ext) = split_ext_exec(&cleaned);
    let mut answers: Vec<bool> = Vec::new();
    let mut k: usize = 0;
    while k < 9999
        invariant
            k <= 9999,
            fc@ == folder@,
            cleaned@ == clean_name(raw@),
            split_ext(cleaned@) == (stem@, match ext {
                Some(e) => Some(e@),
                None => None,
            }),
            answers@.len() == k,
            forall|j: int| 0 <= j < k ==> answers@[j],
            ascii_safe(cleaned@),
        decreases 9999 - k,
    {
        let cand = candidate_at(&fc, &cleaned, &stem, &ext, k, Ghost(raw@));
        let exists = path_exists(&cand);
        answers.push(exists);
        if !exists {
            let found = first_free(&answers);
            let ghost taken = answers@ + Seq::new((9999 - answers@.len()) as nat, |j: int| true);
            proof {
                lemma_first_free_at(answers@, 0, k as int);
                lemma_first_free_at(taken, 0, k as int);
                lemma_candidate_allowed(raw@, folder@, k as int);
            }
            match found {
                Some(i) => {
                    let out = string_of(&cand);
                    assert(i == k);
                    assert(named_for(raw@, folder@, taken, Some(out@)));
                    return Some(out);
                },
                None => {
                    assert(false);
                    return None;
                },
            }
        }
        k = k + 1;
    }
    let ghost taken = answers@;
    proof {
        lemma_none_free(taken, 0);
    }
    let tail = match random_hex(4) {
        Some(t) => t,
        None => {
            assert(named_for(raw@, folder@, taken, None));
            return None;
        },
    };
    let mut name = stem.clone();
    name.push('-');
    extend_str(&mut name, tail.as_str());
    proof {
        reveal_strlit("-");
        let h = choose|h: Seq<u8>| h.len() == 4 && tail@ == #[trigger] hex_lower(h);
        assert(name@ =~= stem@ + "-"@ + hex_lower(h));
    }
    let out = string_of(&join_exec(&fc, &name));
    proof {
        let c = clean_name(raw@);
        let (st, ex) = split_ext(c);
        let h = choose|h: Seq<u8>| h.len() == 4 && tail@ == #[trigger] hex_lower(h);
        assert(out@ == join(folder@, st + "-"@ + hex_lower(h)));
        assert(named_for(raw@, folder@, taken, Some(out@)));
    }
    Some(out)
}

proof fn lemma_candidate_allowed(raw: Seq<char>, folder: Seq<char>, k: int)
    requires
        0 <= k < 9999,
    ensures
        allowed_name(raw, folder, candidate_names(raw, folder)[k]),
{
    let c = clean_name(raw);
    let (stem, ext) = split_ext(c);
    if k > 0 {
        let n = (k + 1) as nat;
        assert(candidate_names(raw, folder)[k] == join(folder, numbered(stem, ext, n)));
    }
}

proof fn lemma_last_named_piece(segs: Seq<Seq<char>>)
    ensures
        last_named(segs) matches Some(n) ==> exists|p: int| 0 <= p < segs.len() && segs[p] == n,
        last_named(segs) matches Some(n) ==> n != "."@ && n != ".."@ && n.len() > 0,
    decreases segs.len(),
{
    if segs.len() > 0 && (segs.last() == Seq::<char>::empty() || segs.last() == "."@) {
        lemma_last_named_piece(segs.drop_last());
        if last_named(segs) is Some {
            let p = choose|p: int| 0 <= p < segs.drop_last().len() && segs.drop_last()[p] == last_named(segs)->0;
            assert(segs[p] == last_named(segs)->0);
        }
    } else if segs.len() > 0 {
        assert(segs[segs.len() - 1] == segs.last());
        if segs.last().len() == 0 {
            assert(segs.last() =~= Seq::<char>::empty());
        }
    }
}

proof fn lemma_file_name_no_slash(raw: Seq<char>)
    ensures
        file_name(raw) matches Some(b) ==> forall|j: int| 0 <= j < b.len() ==> b[j] != '/',
{
    let segs = split(raw, '/');
    lemma_split_pieces(raw, '/', 0);
    lemma_last_named_piece(segs);
    if file_name(raw) is Some {
        let b = file_name(raw)->0;
        let p = choose|p: int| 0 <= p < segs.len() && segs[p] == b;
        assert forall|j: int| 0 <= j < b.len() implies b[j] != '/' by {
            assert(split_from(raw, '/', 0)[p][j] != '/');
        }
    }
}

proof fn lemma_sanitize_no_slash(base: Seq<char>)
    requires
        forall|j: int| 0 <= j < base.len() ==> base[j] != '/',
    ensures
        forall|j: int| 0 <= j < sanitize(base).len() ==> sanitize(base)[j] != '/',
{
    assert forall|j: int| 0 <= j < sanitize(base).len() implies sanitize(base)[j] != '/' by {
        assert(sanitize(base)[j] == base[j] || sanitize(base)[j] == '_');
    }
}

proof fn lemma_trim_no_slash(m: Seq<char>)
    requires
        forall|j: int| 0 <= j < m.len() ==> m[j] != '/',
    ensures
        forall|j: int| 0 <= j < trim_both(m, Trim::DotSpace).len() ==> trim_both(m, Trim::DotSpace)[j] != '/',
        trim_both(m, Trim::DotSpace).len() > 0 ==> !in_set(Trim::DotSpace, trim_both(m, Trim::DotSpace)[0])
            && !in_set(Trim::DotSpace, trim_both(m, Trim::DotSpace).last()),
{
    lemma_trim_both(m, Trim::DotSpace);
    let t = trim_both(m, Trim::DotSpace);
    let (a, b) = choose|a: int, b: int| 0 <= a <= b <= m.len() && t == #[trigger] m.subrange(a, b);
    assert forall|j: int| 0 <= j < t.len() implies t[j] != '/' by {
        assert(t[j] == m[a + j]);
    }
}

/// Every saved name is a single plain component: never empty, no `/`, and
/// neither starting nor ending with `.` or a space, so never `.` or `..`.
/// Whatever path an upload claims, it cannot climb out of the folder.
pub proof fn lemma_clean_name_is_plain(raw: Seq<char>)
    ensures
        clean_name(raw).len() > 0,
        forall|j: int| 0 <= j < clean_name(raw).len() ==> clean_name(raw)[j] != '/',
        !in_set(Trim::DotSpace, clean_name(raw)[0]),
        !in_set(Trim::DotSpace, clean_name(raw).last()),
{
    reveal_strlit("untitled");
    lemma_file_name_no_slash(raw);
    let base = match file_name(raw) {
        Some(b) => b,
        None => "untitled"@,
    };
    lemma_sanitize_no_slash(base);
    lemma_trim_no_slash(sanitize(base));
}

/// The name a file keeps when it is moved out of the Drop folder: its own
/// final component, or `untitled` when its path has none.
pub open spec fn landing_name(from: Seq<char>) -> Seq<char> {
    match file_name(from) {
        Some(n) => n,
        None => "untitled"@,
    }
}

/// Where `relocate` puts the file at `from` inside `to_dir`.
pub fn relocation_target(from: &str, to_dir: &str) -> (r: Option<String>)
    ensures
        exists|taken: Seq<bool>|
            taken.len() == candidate_names(landing_name(from@), to_dir@).len() && #[trigger] named_for(
                landing_name(from@),
                to_dir@,
                taken,
                opt_chars(r),
            ),
        r matches Some(out) ==> allowed_name(landing_name(from@), to_dir@, out@),
{
    let fc = chars_of(from);
    let name = match file_name_of(&fc) {
        Some(n) => string_of(&n),
        None => {
            proof {
                reveal_strlit("untitled");
            }
            "untitled".to_owned()
        },
    };
    assert(name@ == landing_name(from@));
    let r = safe_name(name.as_str(), to_dir);
    proof {
        let taken = choose|taken: Seq<bool>|
            taken.len() == candidate_names(name@, to_dir@).len() && #[trigger] named_for(
                name@,
                to_dir@,
                taken,
                opt_chars(r),
            );
        assert(named_for(landing_name(from@), to_dir@, taken, opt_chars(r)));
    }
    r
}

// ---------------------------------------------------------------------------
// containment
// ---------------------------------------------------------------------------

/// The named components of a `/`-separated path: empty and `.` pieces are
/// dropped, as `Path::components` drops them past the start.
pub open spec fn parts(segs: Seq<Seq<char>>) -> Seq<Seq<char>>
    decreases segs.len(),
{
    if segs.len() == 0 {
        Seq::empty()
    } else {
        let r = parts(segs.drop_last());
        if segs.last() == Seq::<char>::empty() || segs.last() == "."@ {
            r
        } else {
            r.push(segs.last())
        }
    }
}

pub open spec fn path_parts(p: Seq<char>) -> Seq<Seq<char>> {
    parts(split(p, '/'))
}

pub open spec fn rooted(p: Seq<char>) -> bool {
    p.len() > 0 && p[0] == '/'
}

/// `path` lies at or below `root`, component by component
/// (`Path::starts_with` on the absolute, canonical paths `serve_from`
/// compares): `/srv/drop2` is not inside `/srv/drop`.
pub open spec fn inside(path: Seq<char>, root: Seq<char>) -> bool {
    &&& rooted(path) == rooted(root)
    &&& path_parts(root).len() <= path_parts(path).len()
    &&& path_parts(path).take(path_parts(root).len() as int) == path_parts(root)
}

fn parts_exec(p: &Vec<char>) -> (out: Vec<Vec<char>>)
    ensures
        views(out@) == path_parts(p@),
{
    let segs = split_exec(p, '/');
    let empty: Vec<char> = Vec::new();
    let dot = vec!['.'];
    proof {
        reveal_strlit(".");
        assert(dot@ =~= "."@);
    }
    let mut out: Vec<Vec<char>> = Vec::new();
    let mut i: usize = 0;
    while i < segs.len()
        invariant
            i <= segs.len(),
            views(segs@) == split(p@, '/'),
            dot@ == "."@,
            empty@ == Seq::<char>::empty(),
            views(out@) == parts(views(segs@).take(i as int)),
        decreases segs.len() - i,
    {
        let ghost vs = views(segs@);
        assert(vs.take(i + 1).drop_last() =~= vs.take(i as int));
        assert(vs.take(i + 1).last() == segs@[i as int]@);
        if !chars_eq(&segs[i], &empty) && !chars_eq(&segs[i], &dot) {
            out.push(segs[i].clone());
            assert(views(out@) =~= parts(vs.take(i as int)).push(segs@[i as int]@));
        }
        i = i + 1;
    }
    assert(views(segs@).take(segs.len() as int) =~= views(segs@));
    out
}

proof fn lemma_parts_push(segs: Seq<Seq<char>>, x: Seq<char>)
    ensures
        parts(segs.push(x)) == if x == Seq::<char>::empty() || x == "."@ {
            parts(segs)
        } else {
            parts(segs).push(x)
        },
{
    assert(segs.push(x).drop_last() =~= segs);
}

/// A plain name joined to a folder lies inside that folder.
proof fn lemma_join_inside(root: Seq<char>, name: Seq<char>)
    requires
        name.len() > 0,
        name != "."@,
        forall|j: int| 0 <= j < name.len() ==> name[j] != '/',
    ensures
        inside(join(root, name), root),
        path_parts(join(root, name)) == path_parts(root).push(name),
{
    let p = join(root, name);
    reveal_strlit("/");
    if root.len() == 0 {
        crate::text::lemma_find_char_from(root, '/', 0);
        assert(root.subrange(0, 0) =~= Seq::<char>::empty());
        assert(split(root, '/') =~= seq![Seq::<char>::empty()]);
        assert(path_parts(root) =~= Seq::<Seq<char>>::empty()) by {
            lemma_parts_push(Seq::<Seq<char>>::empty(), Seq::<char>::empty());
            assert(seq![Seq::<char>::empty()] =~= Seq::<Seq<char>>::empty().push(Seq::<char>::empty()));
        }
        crate::text::lemma_find_char_from(name, '/', 0);
        assert(name.subrange(0, name.len() as int) =~= name);
        assert(split(name, '/') =~= seq![name]);
        lemma_parts_push(Seq::<Seq<char>>::empty(), name);
        assert(seq![name] =~= Seq::<Seq<char>>::empty().push(name));
        assert(path_parts(p) =~= path_parts(root).push(name));
    } else if root.last() != '/' {
        assert(p =~= root + seq!['/'] + name);
        crate::text::lemma_split_append(root, '/', name, 0);
        assert(split(p, '/') =~= split(root, '/').push(name));
        lemma_parts_push(split(root, '/'), name);
    } else {
        let r = root.drop_last();
        assert(root =~= r + seq!['/'] + Seq::<char>::empty());
        assert(p =~= r + seq!['/'] + name);
        crate::text::lemma_split_append(r, '/', Seq::<char>::empty(), 0);
        crate::text::lemma_split_append(r, '/', name, 0);
        assert(split(root, '/') =~= split(r, '/').push(Seq::<char>::empty()));
        assert(split(p, '/') =~= split(r, '/').push(name));
        lemma_parts_push(split(r, '/'), Seq::<char>::empty());
        lemma_parts_push(split(r, '/'), name);
    }
    assert(path_parts(p).take(path_parts(root).len() as int) =~= path_parts(root));
    if root.len() == 0 {
        assert(!rooted(p));
    } else {
        assert(p[0] == root[0]);
    }
}

/// A download is served from inside its folder: whatever name is asked for,
/// the file it resolves to is the folder joined with one plain component.
pub proof fn lemma_served_file_stays_inside(root: Seq<char>, fname: Seq<char>)
    ensures
        file_name(fname) matches Some(n) ==> inside(join(root, n), root) && path_parts(join(root, n))
            == path_parts(root).push(n),
{
    lemma_last_named_piece(split(fname, '/'));
    lemma_file_name_no_slash(fname);
    if let Some(n) = file_name(fname) {
        lemma_join_inside(root, n);
    }
}

proof fn lemma_no_slash_concat(a: Seq<char>, b: Seq<char>)
    requires
        forall|j: int| 0 <= j < a.len() ==> a[j] != '/',
        forall|j: int| 0 <= j < b.len() ==> b[j] != '/',
    ensures
        forall|j: int| 0 <= j < (a + b).len() ==> (a + b)[j] != '/',
{
    assert forall|j: int| 0 <= j < (a + b).len() implies (a + b)[j] != '/' by {
        if j >= a.len() {
            assert((a + b)[j] == b[j - a.len()]);
        }
    }
}

/// Every path `safe_name` can give lies directly inside the folder:
/// whatever name an upload claims, it lands one component below it.
pub proof fn lemma_saved_upload_stays_inside(raw: Seq<char>, folder: Seq<char>, out: Seq<char>)
    requires
        allowed_name(raw, folder, out),
    ensures
        inside(out, folder),
        path_parts(out).len() == path_parts(folder).len() + 1,
{
    reveal_strlit(" (");
    reveal_strlit(")");
    reveal_strlit(".");
    reveal_strlit("-");
    let c = clean_name(raw);
    lemma_clean_name_is_plain(raw);
    let (stem, ext) = split_ext(c);
    assert(forall|j: int| 0 <= j < stem.len() ==> stem[j] != '/') by {
        match last_index(c, '.') {
            Some(i) if i > 0 => {
                crate::text::lemma_last_index(c, '.');
                assert forall|j: int| 0 <= j < stem.len() implies stem[j] != '/' by {
                    assert(stem[j] == c[j]);
                }
            },
            _ => {},
        }
    }
    assert(ext matches Some(e) ==> forall|j: int| 0 <= j < e.len() ==> e[j] != '/') by {
        match last_index(c, '.') {
            Some(i) if i > 0 => {
                crate::text::lemma_last_index(c, '.');
                let e = c.skip(i + 1);
                assert forall|j: int| 0 <= j < e.len() implies e[j] != '/' by {
                    assert(e[j] == c[i + 1 + j]);
                }
            },
            _ => {},
        }
    }
    if out == join(folder, c) {
        if c == "."@ {
            assert(c[0] == '.');
        }
        lemma_join_inside(folder, c);
    } else if exists|n: nat| 2 <= n < 10000 && out == join(folder, #[trigger] numbered(stem, ext, n)) {
        let n = choose|n: nat| 2 <= n < 10000 && out == join(folder, #[trigger] numbered(stem, ext, n));
        let name = numbered(stem, ext, n);
        crate::text::lemma_decimal_digits(n);
        let d = decimal(n);
        assert(forall|j: int| 0 <= j < d.len() ==> d[j] != '/') by {
            assert forall|j: int| 0 <= j < d.len() implies d[j] != '/' by {
                assert(crate::text::is_digit(d[j]));
            }
        }
        lemma_no_slash_concat(stem, " ("@);
        lemma_no_slash_concat(stem + " ("@, d);
        lemma_no_slash_concat(stem + " ("@ + d, ")"@);
        let base = stem + " ("@ + d + ")"@;
        match ext {
            Some(e) => {
                lemma_no_slash_concat(base, "."@);
                lemma_no_slash_concat(base + "."@, e);
            },
            None => {},
        }
        assert(name.len() >= 3);
        lemma_join_inside(folder, name);
    } else {
        let h = choose|h: Seq<u8>| h.len() == 4 && out == join(folder, stem + "-"@ + #[trigger] hex_lower(h));
        crate::crypto::lemma_hex_chars(h);
        crate::crypto::lemma_hex_len(h);
        let x = hex_lower(h);
        assert(forall|j: int| 0 <= j < x.len() ==> x[j] != '/') by {
            assert forall|j: int| 0 <= j < x.len() implies x[j] != '/' by {
                assert('0' <= x[j] <= '9' || 'a' <= x[j] <= 'f');
            }
        }
        lemma_no_slash_concat(stem, "-"@);
        lemma_no_slash_concat(stem + "-"@, x);
        let name = stem + "-"@ + x;
        assert(name.len() >= 9);
        lemma_join_inside(folder, name);
    }
}

/// Whether the canonical `path` is inside the canonical folder `root`.
pub fn within(path: &str, root: &str) -> (r: bool)
    ensures
        r == inside(path@, root@),
{
    let a = chars_of(path);
    let b = chars_of(root);
    let ra = a.len() > 0 && a[0] == '/';
    let rb = b.len() > 0 && b[0] == '/';
    if ra != rb {
        return false;
    }
    let pa = parts_exec(&a);
    let pb = parts_exec(&b);
    if pb.len() > pa.len() {
        return false;
    }
    let mut i: usize = 0;
    while i < pb.len()
        invariant
            i <= pb.len() <= pa.len(),
            views(pa@) == path_parts(path@),
            views(pb@) == path_parts(root@),
            forall|j: int| 0 <= j < i ==> path_parts(path@)[j] == path_parts(root@)[j],
        decreases pb.len() - i,
    {
        assert(views(pa@)[i as int] == pa@[i as int]@);
        assert(views(pb@)[i as int] == pb@[i as int]@);
        if !chars_eq(&pa[i], &pb[i]) {
            return false;
        }
        i = i + 1;
    }
    assert(path_parts(path@).take(pb.len() as int) =~= path_parts(root@));
    true
}

// ---------------------------------------------------------------------------
// human-readable sizes
// ---------------------------------------------------------------------------

pub open spec fn pow2(k: nat) -> nat
    decreases k,
{
    if k == 0 { 1 } else { 2 * pow2((k - 1) as nat) }
}

/// The number of binary digits of `n`.
pub open spec fn bit_len(n: nat) -> nat
    decreases n,
{
    if n == 0 { 0 } else { 1 + bit_len(n / 2) }
}

/// `a / d` rounded to the nearest integer, ties to even.
pub open spec fn round_div(a: nat, d: nat) -> nat {
    let q = a / d;
    let r = a % d;
    if 2 * r > d || (2 * r == d && q % 2 == 1) { q + 1 } else { q }
}

/// The value of `n as f64`: `n` rounded to 53 significant bits, ties to even.
pub open spec fn as_f64(n: nat) -> nat {
    if bit_len(n) <= 53 {
        n
    } else {
        let sh = (bit_len(n) - 53) as nat;
        round_div(n, pow2(sh)) * pow2(sh)
    }
}

/// `t / 10` with one decimal: `{:.1}` of the value `t` tenths.
pub open spec fn tenths(t: nat) -> Seq<char> {
    decimal(t / 10) + "."@ + seq![crate::text::digit_char(t % 10)]
}

/// `human_size(n)`: bytes below 1 KiB, else KB, MB or GB with one decimal,
/// rounded as `{:.1}` rounds the `f64` quotient (to nearest, ties to even).
pub open spec fn human_size_text(n: nat) -> Seq<char> {
    let f = as_f64(n);
    if f < 1024 {
        decimal(f) + " B"@
    } else if f < 1024 * 1024 {
        tenths(round_div(10 * f, 1024)) + " KB"@
    } else if f < 1024 * 1024 * 1024 {
        tenths(round_div(10 * f, 1024 * 1024)) + " MB"@
    } else {
        tenths(round_div(10 * f, 1024 * 1024 * 1024)) + " GB"@
    }
}

proof fn lemma_bit_len_bound(n: nat, k: nat)
    ensures
        bit_len(n) <= k <==> n < pow2(k),
    decreases k,
{
    lemma_pow2_pos(k);
    if k > 0 && n > 0 {
        lemma_bit_len_bound(n / 2, (k - 1) as nat);
        let m = pow2((k - 1) as nat);
        assert(pow2(k) == 2 * m);
        assert(n / 2 < m <==> n < 2 * m) by (nonlinear_arith);
    } else if k == 0 {
        if n > 0 {
            assert(bit_len(n) >= 1);
        }
    }
}

fn round_div_exec(a: u128, d: u128) -> (r: u128)
    requires
        d > 0,
        a < u128::MAX,
    ensures
        r == round_div(a as nat, d as nat),
{
    let q = a / d;
    let r = a % d;
    if r > d - r || (r == d - r && q % 2 == 1) {
        assert(q < a || d == 1 || q + 1 <= u128::MAX) by (nonlinear_arith)
            requires q == a / d, d > 0, a < u128::MAX;
        q + 1
    } else {
        q
    }
}

/// `n as f64`, as an integer.
fn f64_value(n: u64) -> (f: u128)
    ensures
        f == as_f64(n as nat),
        f <= 0x1_0000_0000_0000_0000,
{
    proof {
        lemma_pow2_consts();
        lemma_bit_len_bound(n as nat, 64);
    }
    let mut x: u64 = n;
    let mut len: u32 = 0;
    while x > 0
        invariant
            bit_len(n as nat) == len + bit_len(x as nat),
            len <= 64,
            bit_len(x as nat) + len <= 64,
        decreases x,
    {
        x = x / 2;
        len = len + 1;
    }
    if len <= 53 {
        return n as u128;
    }
    let sh: u32 = len - 53;
    let mut d: u128 = 1;
    let mut k: u32 = 0;
    while k < sh
        invariant
            k <= sh <= 11,
            d == pow2(k as nat),
            1 <= d <= 2048,
        decreases sh - k,
    {
        proof {
            reveal_with_fuel(pow2, 12);
        }
        d = d * 2;
        k = k + 1;
    }
    let q = round_div_exec(n as u128, d);
    proof {
        lemma_bit_len_bound(n as nat, len as nat);
        assert(n < pow2(len as nat));
        assert(pow2(len as nat) == pow2(53) * pow2(sh as nat)) by {
            lemma_pow2_add(53, sh as nat);
        }
        assert(q <= pow2(53)) by (nonlinear_arith)
            requires q == round_div(n as nat, d as nat), n < pow2(53) * d, d > 0, pow2(53) % 2 == 0;
        assert(q * d <= pow2(64)) by (nonlinear_arith)
            requires q <= pow2(53), d <= 2048, pow2(53) * 2048 == pow2(64);
    }
    q * d
}

proof fn lemma_pow2_consts()
    ensures
        pow2(53) == 0x20_0000_0000_0000,
        pow2(64) == 0x1_0000_0000_0000_0000,
{
    reveal_with_fuel(pow2, 65);
}

proof fn lemma_pow2_pos(k: nat)
    ensures
        pow2(k) > 0,
    decreases k,
{
    if k > 0 {
        lemma_pow2_pos((k - 1) as nat);
    }
}

proof fn lemma_pow2_add(a: nat, b: nat)
    ensures
        pow2(a + b) == pow2(a) * pow2(b),
    decreases b,
{
    if b > 0 {
        lemma_pow2_add(a, (b - 1) as nat);
        assert((a + b - 1) as nat == a + ((b - 1) as nat));
        assert(pow2(a + b) == 2 * pow2((a + b - 1) as nat));
        assert(pow2(a) * pow2(b) == pow2(a) * (2 * pow2((b - 1) as nat)));
        assert(pow2(a) * (2 * pow2((b - 1) as nat)) == 2 * (pow2(a) * pow2((b - 1) as nat))) by (nonlinear_arith);
    } else {
        assert(pow2(0) == 1);
        assert(a + b == a);
    }
}

fn push_tenths(out: &mut Vec<char>, t: u128)
    requires
        t / 10 <= u64::MAX,
    ensures
        final(out)@ == old(out)@ + tenths(t as nat),
{
    push_decimal(out, (t / 10) as u64);
    out.push('.');
    let d: u8 = (t % 10) as u8;
    out.push((d + 48u8) as char);
    proof {
        reveal_strlit(".");
        assert(((d + 48) as char) == crate::text::digit_char((t % 10) as nat));
    }
    assert(final(out)@ =~= old(out)@ + tenths(t as nat));
}

/// Sizes as the page shows them: `512 B`, `2.0 KB`, `5.0 MB`, `3.0 GB`.
pub fn human_size(n: u64) -> (out: String)
    ensures
        out@ == human_size_text(n as nat),
{
    let f = f64_value(n);
    let mut v: Vec<char> = Vec::new();
    if f < 1024 {
        push_decimal(&mut v, f as u64);
        extend_str(&mut v, " B");
    } else if f < 1024 * 1024 {
        let t = round_div_exec(10 * f, 1024);
        assert(t <= 10 * f) by (nonlinear_arith) requires t == round_div((10 * f) as nat, 1024);
        push_tenths(&mut v, t);
        extend_str(&mut v, " KB");
    } else if f < 1024 * 1024 * 1024 {
        let t = round_div_exec(10 * f, 1024 * 1024);
        assert(t <= 10 * f) by (nonlinear_arith) requires t == round_div((10 * f) as nat, 1024 * 1024);
        push_tenths(&mut v, t);
        extend_str(&mut v, " MB");
    } else {
        let t = round_div_exec(10 * f, 1024 * 1024 * 1024);
        assert(t <= 10 * f / 1024 + 1) by (nonlinear_arith)
            requires t == round_div((10 * f) as nat, 1024 * 1024 * 1024);
        push_tenths(&mut v, t);
        extend_str(&mut v, " GB");
    }
    assert(v@ =~= human_size_text(n as nat));
    string_of(&v)
}

} // verus!
