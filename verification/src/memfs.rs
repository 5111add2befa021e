//! The in-memory file tree and its path handling.
//!
//! Paths are sequences of characters separated by `/`. Resolution
//! removes `.` and empty pieces, lets `..` pop the piece before it, and
//! fails where `..` would climb out of the root. The tree keeps
//! directories and byte files under their resolved component lists.

use vstd::prelude::*;

verus! {

/// Failures of path handling and the file tree.
#[derive(Debug, Clone, Copy, PartialEq, Eq, Structural)]
pub enum FsError {
    /// A path climbs out of the root, names no parent, or names an
    /// entry or a directory that is not there.
    NotFound,
    /// The entry exists but does not hold what was asked for: reading
    /// text from a file whose bytes are not UTF-8.
    InvalidInput,
}

/// One resolution step: a finished piece applied to the components
/// resolved so far. Empty pieces and `.` vanish, `..` pops, and popping
/// past the root fails.
pub open spec fn resolve_step(parts: Seq<Seq<char>>, piece: Seq<char>) -> Option<Seq<Seq<char>>> {
    if piece.len() == 0 || piece == seq!['.'] {
        Some(parts)
    } else if piece == seq!['.', '.'] {
        if parts.len() == 0 {
            None
        } else {
            Some(parts.drop_last())
        }
    } else {
        Some(parts.push(piece))
    }
}

/// The resolution walk over the characters of a path: `cur` is the
/// piece being read, `parts` the components resolved so far.
pub open spec fn resolve_from(
    s: Seq<char>,
    i: int,
    cur: Seq<char>,
    parts: Seq<Seq<char>>,
) -> Option<Seq<Seq<char>>>
    decreases s.len() - i when 0 <= i <= s.len()
{
    if i == s.len() {
        resolve_step(parts, cur)
    } else if s[i] == '/' {
        match resolve_step(parts, cur) {
            Some(next) => resolve_from(s, i + 1, Seq::empty(), next),
            None => None,
        }
    } else {
        resolve_from(s, i + 1, cur.push(s[i]), parts)
    }
}

/// The canonical components of a path, or nothing where the path
/// climbs out of the root.
pub open spec fn resolve_path_spec(s: Seq<char>) -> Option<Seq<Seq<char>>> {
    resolve_from(s, 0, Seq::empty(), Seq::empty())
}

/// Resolve a path to its canonical components (removing `..`, `.` and
/// separators); fails exactly where the path climbs out of the root.
pub fn resolve_path(path: &Vec<char>) -> (r: Result<Vec<Vec<char>>, FsError>)
    ensures
        match r {
            Ok(parts) => resolve_path_spec(path@) == Some(parts.deep_view()),
            Err(e) => resolve_path_spec(path@) is None && e == FsError::NotFound,
        },
{
    let n = path.len();
    let mut cur: Vec<char> = Vec::new();
    let mut parts: Vec<Vec<char>> = Vec::new();
    let mut i: usize = 0;
    proof {
        assert(parts.deep_view() =~= Seq::<Seq<char>>::empty());
    }
    while i < n
        invariant
            n == path@.len(),
            0 <= i <= n,
            resolve_from(path@, i as int, cur@, parts.deep_view()) == resolve_path_spec(path@),
        decreases n - i,
    {
        let c = path[i];
        if c == '/' {
            match step_piece(&mut parts, cur) {
                Ok(()) => {},
                Err(e) => {
                    return Err(e);
                },
            }
            cur = Vec::new();
        } else {
            cur.push(c);
        }
        i = i + 1;
    }
    match step_piece(&mut parts, cur) {
        Ok(()) => Ok(parts),
        Err(e) => Err(e),
    }
}

/// Apply one finished piece to the resolved components.
fn step_piece(parts: &mut Vec<Vec<char>>, piece: Vec<char>) -> (r: Result<(), FsError>)
    ensures
        match r {
            Ok(()) => resolve_step(old(parts).deep_view(), piece@) == Some(
                final(parts).deep_view(),
            ),
            Err(e) => resolve_step(old(parts).deep_view(), piece@) is None && e
                == FsError::NotFound && *final(parts) == *old(parts),
        },
{
    let is_dot = piece.len() == 1 && piece[0] == '.';
    let is_dotdot = piece.len() == 2 && piece[0] == '.' && piece[1] == '.';
    proof {
        if is_dot {
            assert(piece@ =~= seq!['.']);
        }
        if is_dotdot {
            assert(piece@ =~= seq!['.', '.']);
        }
        if piece@.len() == 1 && piece@ == seq!['.'] {
            assert(piece@[0] == '.');
        }
        if piece@.len() == 2 && piece@ == seq!['.', '.'] {
            assert(piece@[0] == '.' && piece@[1] == '.');
        }
    }
    if piece.len() == 0 || is_dot {
        Ok(())
    } else if is_dotdot {
        if parts.len() == 0 {
            Err(FsError::NotFound)
        } else {
            let _ = parts.pop();
            proof {
                assert(parts.deep_view() =~~= old(parts).deep_view().drop_last());
            }
            Ok(())
        }
    } else {
        parts.push(piece);
        proof {
            assert(parts.deep_view() =~~= old(parts).deep_view().push(piece@));
        }
        Ok(())
    }
}

/// A path with its trailing separators removed.
pub open spec fn trim_slashes(s: Seq<char>) -> Seq<char>
    decreases s.len(),
{
    if s.len() > 0 && s.last() == '/' {
        trim_slashes(s.drop_last())
    } else {
        s
    }
}

/// The index of the last separator, or -1 where there is none.
pub open spec fn last_slash(s: Seq<char>) -> int
    decreases s.len(),
{
    if s.len() == 0 {
        -1
    } else if s.last() == '/' {
        s.len() - 1
    } else {
        last_slash(s.drop_last())
    }
}

/// The parent of a path: everything before its last component, or
/// nothing where the path has no component at all.
pub open spec fn parent_spec(s: Seq<char>) -> Option<Seq<char>> {
    let t = trim_slashes(s);
    if t.len() == 0 {
        None
    } else {
        let i = last_slash(t);
        if i < 0 {
            Some(Seq::<char>::empty())
        } else {
            Some(trim_slashes(t.subrange(0, i)))
        }
    }
}

/// Get the parent of a file or directory path: the path before the
/// last component. Fails exactly on paths with no component: the empty
/// path and paths made of separators only.
pub fn file_parent(path: &Vec<char>) -> (r: Result<Vec<char>, FsError>)
    ensures
        match r {
            Ok(parent) => parent_spec(path@) == Some(parent@),
            Err(e) => parent_spec(path@) is None && e == FsError::NotFound,
        },
{
    let n = path.len();
    // drop trailing separators
    let mut end: usize = n;
    proof {
        assert(path@.subrange(0, n as int) =~= path@);
    }
    while end > 0 && path[end - 1] == '/'
        invariant
            end <= n,
            n == path@.len(),
            trim_slashes(path@.subrange(0, end as int)) == trim_slashes(path@),
        decreases end,
    {
        proof {
            assert(path@.subrange(0, end as int).last() == path@[end - 1]);
            assert(path@.subrange(0, end as int).drop_last() =~= path@.subrange(0, end - 1));
        }
        end = end - 1;
    }
    proof {
        if end > 0 {
            assert(path@.subrange(0, end as int).last() == path@[end - 1]);
        }
        assert(trim_slashes(path@.subrange(0, end as int)) == path@.subrange(0, end as int));
    }
    if end == 0 {
        return Err(FsError::NotFound);
    }
    let ghost t = path@.subrange(0, end as int);
    // find the last separator before the last component
    let mut j: usize = end;
    proof {
        assert(t.subrange(0, end as int) =~= t);
    }
    while j > 0 && path[j - 1] != '/'
        invariant
            j <= end,
            end <= n,
            n == path@.len(),
            t == path@.subrange(0, end as int),
            t.len() == end,
            last_slash(t.subrange(0, j as int)) == last_slash(t),
            j < end ==> t[j as int] != '/',
        decreases j,
    {
        proof {
            assert(t.subrange(0, j as int).last() == path@[j - 1]);
            assert(t.subrange(0, j as int).drop_last() =~= t.subrange(0, j - 1));
        }
        j = j - 1;
    }
    if j == 0 {
        proof {
            assert(t.subrange(0, 0) =~= Seq::<char>::empty());
            assert(last_slash(t) == -1);
        }
        return Ok(Vec::new());
    }
    proof {
        assert(t.subrange(0, j as int).last() == path@[j - 1]);
        assert(last_slash(t) == j - 1);
    }
    // drop separators before the last component as well
    let mut end2: usize = j - 1;
    proof {
        assert(t.subrange(0, (j - 1) as int) =~= path@.subrange(0, (j - 1) as int));
    }
    while end2 > 0 && path[end2 - 1] == '/'
        invariant
            end2 <= j - 1,
            j <= end,
            end <= n,
            n == path@.len(),
            t == path@.subrange(0, end as int),
            trim_slashes(path@.subrange(0, end2 as int)) == trim_slashes(t.subrange(0, j - 1)),
        decreases end2,
    {
        proof {
            assert(path@.subrange(0, end2 as int).last() == path@[end2 - 1]);
            assert(path@.subrange(0, end2 as int).drop_last() =~= path@.subrange(0, end2 - 1));
        }
        end2 = end2 - 1;
    }
    proof {
        if end2 > 0 {
            assert(path@.subrange(0, end2 as int).last() == path@[end2 - 1]);
        }
        assert(trim_slashes(path@.subrange(0, end2 as int)) == path@.subrange(0, end2 as int));
    }
    let mut parent: Vec<char> = Vec::new();
    let mut k: usize = 0;
    while k < end2
        invariant
            k <= end2,
            end2 <= n,
            n == path@.len(),
            parent@ =~= path@.subrange(0, k as int),
        decreases end2 - k,
    {
        parent.push(path[k]);
        proof {
            assert(parent@ =~= path@.subrange(0, k + 1));
        }
        k = k + 1;
    }
    proof {
        assert(parent@ =~= path@.subrange(0, end2 as int));
    }
    Ok(parent)
}

/// The entry under a name in an association list, searching from
/// index `t` on; the first match wins.
pub open spec fn assoc_find<V>(entries: Seq<(Vec<char>, V)>, name: Seq<char>, t: int) -> Option<V>
    decreases entries.len() - t when 0 <= t <= entries.len()
{
    if t == entries.len() {
        None
    } else if entries[t].0@ == name {
        Some(entries[t].1)
    } else {
        assoc_find(entries, name, t + 1)
    }
}

/// A directory of the in-memory tree: named subdirectories and named
/// byte files.
#[derive(Debug)]
pub struct Directory {
    pub subdirs: Vec<(Vec<char>, Directory)>,
    pub files: Vec<(Vec<char>, Vec<u8>)>,
}

/// The directory a component list leads to, if every component names
/// a subdirectory on the way.
pub open spec fn dir_at(d: Directory, parts: Seq<Seq<char>>) -> Option<Directory>
    decreases parts.len(),
{
    if parts.len() == 0 {
        Some(d)
    } else {
        match assoc_find(d.subdirs@, parts[0], 0) {
            Some(sub) => dir_at(sub, parts.drop_first()),
            None => None,
        }
    }
}

/// The bytes of the file `name` in the directory `parts` leads to.
pub open spec fn file_at(d: Directory, parts: Seq<Seq<char>>, name: Seq<char>) -> Option<Vec<u8>> {
    match dir_at(d, parts) {
        Some(dd) => assoc_find(dd.files@, name, 0),
        None => None,
    }
}

/// Replacing the entry at a first-match index under the same name
/// moves only that name's lookup.
proof fn lemma_assoc_find_update<V>(
    entries: Seq<(Vec<char>, V)>,
    j: int,
    nv: Vec<char>,
    nd: V,
    m: Seq<char>,
    t: int,
)
    requires
        0 <= t <= entries.len(),
        0 <= j < entries.len(),
        nv@ == entries[j].0@,
        forall|k: int| 0 <= k < j ==> entries[k].0@ != entries[j].0@,
    ensures
        assoc_find(entries.update(j, (nv, nd)), m, t) == if m == entries[j].0@ && t <= j {
            Some(nd)
        } else {
            assoc_find(entries, m, t)
        },
    decreases entries.len() - t,
{
    let updated = entries.update(j, (nv, nd));
    if t < entries.len() {
        lemma_assoc_find_update(entries, j, nv, nd, m, t + 1);
        if t == j {
            assert(updated[t].0@ == entries[t].0@);
        } else {
            assert(updated[t] == entries[t]);
        }
    }
}

/// Appending an entry changes only the lookup of names that were
/// absent, and of those only the appended one.
proof fn lemma_assoc_find_push<V>(
    entries: Seq<(Vec<char>, V)>,
    nv: Vec<char>,
    nd: V,
    m: Seq<char>,
    t: int,
)
    requires
        0 <= t <= entries.len(),
    ensures
        assoc_find(entries.push((nv, nd)), m, t) == match assoc_find(entries, m, t) {
            Some(v) => Some(v),
            None => if m == nv@ {
                Some(nd)
            } else {
                None
            },
        },
    decreases entries.len() - t,
{
    let pushed = entries.push((nv, nd));
    if t < entries.len() {
        assert(pushed[t] == entries[t]);
        lemma_assoc_find_push(entries, nv, nd, m, t + 1);
    } else {
        assert(pushed[t] == (nv, nd));
        assert(assoc_find(pushed, m, t + 1) == None::<V>);
    }
}

/// One descent step of the directory walk, as an equation.
proof fn lemma_dir_at_step(d: Directory, q: Seq<Seq<char>>)
    requires
        q.len() > 0,
    ensures
        dir_at(d, q) == match assoc_find(d.subdirs@, q[0], 0) {
            Some(s) => dir_at(s, q.drop_first()),
            None => None,
        },
{
}

/// One descent step of the file lookup, as an equation.
proof fn lemma_file_at_step(d: Directory, q: Seq<Seq<char>>, n: Seq<char>)
    requires
        q.len() > 0,
    ensures
        file_at(d, q, n) == match assoc_find(d.subdirs@, q[0], 0) {
            Some(s) => file_at(s, q.drop_first(), n),
            None => None,
        },
{
}

/// A fresh directory holds nothing at all.
proof fn lemma_empty_dir(d: Directory, q: Seq<Seq<char>>, n: Seq<char>)
    requires
        d.subdirs@.len() == 0,
        d.files@.len() == 0,
    ensures
        file_at(d, q, n) is None,
        q.len() > 0 ==> dir_at(d, q) is None,
{
    if q.len() > 0 {
        assert(assoc_find(d.subdirs@, q[0], 0) == None::<Directory>);
    } else {
        assert(assoc_find(d.files@, n, 0) == None::<Vec<u8>>);
    }
}

/// Relies on String::from_utf8: it succeeds exactly on byte vectors
/// that are valid UTF-8, and the string it returns holds exactly the
/// characters those bytes encode.
#[verifier::external_body]
fn string_from_utf8(bytes: Vec<u8>) -> (r: Option<String>)
    ensures
        (r is Some) == vstd::utf8::valid_utf8(bytes@),
        r matches Some(s) ==> s@ == vstd::utf8::decode_utf8(bytes@),
{
    String::from_utf8(bytes).ok()
}

/// Copy a component name.
fn clone_chars(v: &Vec<char>) -> (r: Vec<char>)
    ensures
        r@ == v@,
{
    let n = v.len();
    let mut out: Vec<char> = Vec::new();
    let mut i: usize = 0;
    while i < n
        invariant
            n == v@.len(),
            i <= n,
            out@ =~= v@.subrange(0, i as int),
        decreases n - i,
    {
        out.push(v[i]);
        proof {
            assert(out@ =~= v@.subrange(0, i + 1));
        }
        i = i + 1;
    }
    proof {
        assert(out@ =~= v@);
    }
    out
}

/// Copy file content.
fn clone_bytes(v: &Vec<u8>) -> (r: Vec<u8>)
    ensures
        r@ == v@,
{
    let n = v.len();
    let mut out: Vec<u8> = Vec::new();
    let mut i: usize = 0;
    while i < n
        invariant
            n == v@.len(),
            i <= n,
            out@ =~= v@.subrange(0, i as int),
        decreases n - i,
    {
        out.push(v[i]);
        proof {
            assert(out@ =~= v@.subrange(0, i + 1));
        }
        i = i + 1;
    }
    proof {
        assert(out@ =~= v@);
    }
    out
}

/// Whether two component names are the same characters.
fn chars_equal(a: &Vec<char>, b: &Vec<char>) -> (r: bool)
    ensures
        r == (a@ == b@),
{
    if a.len() != b.len() {
        return false;
    }
    let n = a.len();
    let mut i: usize = 0;
    while i < n
        invariant
            i <= n,
            n == a@.len(),
            n == b@.len(),
            forall|j: int| 0 <= j < i ==> a@[j] == b@[j],
        decreases n - i,
    {
        if a[i] != b[i] {
            return false;
        }
        i = i + 1;
    }
    proof {
        assert(a@ =~= b@);
    }
    true
}

/// The entries with every entry under a name dropped, from index `t`
/// on.
pub open spec fn assoc_drop<V>(
    entries: Seq<(Vec<char>, V)>,
    name: Seq<char>,
    t: int,
) -> Seq<(Vec<char>, V)>
    decreases entries.len() - t when 0 <= t <= entries.len()
{
    if t == entries.len() {
        Seq::<(Vec<char>, V)>::empty()
    } else if entries[t].0@ == name {
        assoc_drop(entries, name, t + 1)
    } else {
        seq![entries[t]] + assoc_drop(entries, name, t + 1)
    }
}

/// Searching behind a prepended entry searches the rest.
proof fn lemma_assoc_find_cons<V>(e: (Vec<char>, V), rest: Seq<(Vec<char>, V)>, m: Seq<char>, k: int)
    requires
        0 <= k <= rest.len(),
    ensures
        assoc_find(seq![e] + rest, m, k + 1) == assoc_find(rest, m, k),
    decreases rest.len() - k,
{
    let s = seq![e] + rest;
    if k < rest.len() {
        assert(s[k + 1] == rest[k]);
        lemma_assoc_find_cons(e, rest, m, k + 1);
    }
}

/// Dropping a name's entries removes exactly that name's lookup.
proof fn lemma_assoc_drop_find<V>(entries: Seq<(Vec<char>, V)>, name: Seq<char>, m: Seq<char>, t: int)
    requires
        0 <= t <= entries.len(),
    ensures
        assoc_find(assoc_drop(entries, name, t), m, 0) == if m == name {
            None::<V>
        } else {
            assoc_find(entries, m, t)
        },
    decreases entries.len() - t,
{
    if t < entries.len() {
        lemma_assoc_drop_find(entries, name, m, t + 1);
        if entries[t].0@ != name {
            let rest = assoc_drop(entries, name, t + 1);
            let s = seq![entries[t]] + rest;
            assert(s[0] == entries[t]);
            lemma_assoc_find_cons(entries[t], rest, m, 0);
        }
    }
}

/// Drop every entry under a name.
fn assoc_remove<V>(entries: Vec<(Vec<char>, V)>, name: &Vec<char>) -> (r: Vec<(Vec<char>, V)>)
    ensures
        r@ == assoc_drop(entries@, name@, 0),
{
    let ghost e0 = entries@;
    let initial_len: usize = entries.len();
    let ghost n = entries@.len();
    let mut entries = entries;
    let mut out: Vec<(Vec<char>, V)> = Vec::new();
    let mut i: usize = 0;
    proof {
        assert(entries@ =~= e0.subrange(0, n as int));
        assert(out@ + assoc_drop(e0, name@, 0) =~= assoc_drop(e0, name@, 0));
    }
    while entries.len() > 0
        invariant
            n == e0.len(),
            n == initial_len,
            i <= n,
            entries@ == e0.subrange(i as int, n as int),
            out@ + assoc_drop(e0, name@, i as int) == assoc_drop(e0, name@, 0),
        decreases entries@.len(),
    {
        let entry = entries.remove(0);
        proof {
            assert(entry == e0[i as int]);
            assert(entries@ =~= e0.subrange(i + 1, n as int));
        }
        let keep = !chars_equal(&entry.0, name);
        let ghost prev = out@;
        if keep {
            out.push(entry);
            proof {
                assert(out@ + assoc_drop(e0, name@, i + 1) =~= prev + assoc_drop(
                    e0,
                    name@,
                    i as int,
                ));
            }
        } else {
            proof {
                assert(assoc_drop(e0, name@, i as int) == assoc_drop(e0, name@, i + 1));
            }
        }
        i = i + 1;
    }
    proof {
        assert(assoc_drop(e0, name@, n as int) =~= Seq::<(Vec<char>, V)>::empty());
        assert(out@ =~= out@ + assoc_drop(e0, name@, n as int));
    }
    out
}

/// The index of the first entry under a name, if any.
fn assoc_index<V>(entries: &Vec<(Vec<char>, V)>, name: &Vec<char>) -> (r: Option<usize>)
    ensures
        match r {
            Some(j) => {
                &&& j < entries@.len()
                &&& entries@[j as int].0@ == name@
                &&& forall|k: int| 0 <= k < j ==> entries@[k].0@ != name@
                &&& assoc_find(entries@, name@, 0) == Some(entries@[j as int].1)
            },
            None => assoc_find(entries@, name@, 0) is None,
        },
{
    let n = entries.len();
    let mut j: usize = 0;
    while j < n
        invariant
            n == entries@.len(),
            j <= n,
            forall|k: int| 0 <= k < j ==> entries@[k].0@ != name@,
            assoc_find(entries@, name@, j as int) == assoc_find(entries@, name@, 0),
        decreases n - j,
    {
        if chars_equal(&entries[j].0, name) {
            return Some(j);
        }
        j = j + 1;
    }
    None
}

/// Walk down to the directory a component list leads to.
fn dir_ref_at<'a>(root: &'a Directory, parts: &Vec<Vec<char>>) -> (r: Option<&'a Directory>)
    ensures
        match r {
            Some(dd) => dir_at(*root, parts.deep_view()) == Some(*dd),
            None => dir_at(*root, parts.deep_view()) is None,
        },
{
    let ghost pv = parts.deep_view();
    let n = parts.len();
    let mut cur: &Directory = root;
    let mut i: usize = 0;
    proof {
        assert(pv.subrange(0, n as int) =~= pv);
    }
    while i < n
        invariant
            n == pv.len(),
            pv == parts.deep_view(),
            i <= n,
            dir_at(*root, pv) == dir_at(*cur, pv.subrange(i as int, n as int)),
        decreases n - i,
    {
        let name = &parts[i];
        proof {
            assert(pv.subrange(i as int, n as int)[0] =~= name@);
            assert(pv.subrange(i as int, n as int).drop_first() =~= pv.subrange(i + 1, n as int));
        }
        match assoc_index(&cur.subdirs, name) {
            Some(j) => {
                let entry: &(Vec<char>, Directory) = &cur.subdirs[j];
                cur = &entry.1;
            },
            None => {
                return None;
            },
        }
        i = i + 1;
    }
    proof {
        assert(pv.subrange(n as int, n as int) =~= Seq::<Seq<char>>::empty());
    }
    Some(cur)
}

/// Whether `p` is a prefix of `q`, component by component.
pub open spec fn is_prefix_of(p: Seq<Seq<char>>, q: Seq<Seq<char>>) -> bool {
    p.len() <= q.len() && p == q.subrange(0, p.len() as int)
}

/// A prefix of a non-empty path is empty or starts the same way and
/// continues as a prefix of the rest.
proof fn lemma_prefix_step(p: Seq<Seq<char>>, q: Seq<Seq<char>>)
    requires
        q.len() > 0,
    ensures
        is_prefix_of(p, q) == (p.len() == 0 || (p.len() > 0 && p[0] == q[0] && is_prefix_of(
            p.drop_first(),
            q.drop_first(),
        ))),
{
    if p.len() == 0 {
        assert(p =~= q.subrange(0, 0));
    } else {
        if p.len() <= q.len() && p[0] == q[0] && is_prefix_of(p.drop_first(), q.drop_first()) {
            assert forall|k: int| 0 <= k < p.len() implies p[k] == q.subrange(
                0,
                p.len() as int,
            )[k] by {
                if k >= 1 {
                    assert(p.drop_first()[k - 1] == q.drop_first().subrange(0, p.len() - 1)[k
                        - 1]);
                }
            }
            assert(p =~= q.subrange(0, p.len() as int));
        }
        if is_prefix_of(p, q) {
            assert(p.drop_first() =~= q.drop_first().subrange(0, p.len() - 1));
        }
    }
}

/// The names a directory holds: its subdirectories, then its files.
pub open spec fn dir_names(d: Directory) -> Seq<Seq<char>> {
    Seq::new(d.subdirs@.len(), |i: int| d.subdirs@[i].0@) + Seq::new(
        d.files@.len(),
        |i: int| d.files@[i].0@,
    )
}

/// An in-memory file tree: directories and byte files reached by
/// resolved paths. A fresh tree is empty.
#[derive(Debug)]
pub struct MemoryFileSystem {
    root: Directory,
}

impl MemoryFileSystem {
    /// The root directory of the tree.
    pub closed spec fn tree(self) -> Directory {
        self.root
    }

    /// Create a new empty memory file system.
    pub fn new() -> (r: Self)
        ensures
            forall|q: Seq<Seq<char>>, n: Seq<char>| #[trigger] file_at(r.tree(), q, n) is None,
            forall|q: Seq<Seq<char>>| q.len() > 0 ==> #[trigger] dir_at(r.tree(), q) is None,
    {
        let root = Directory { subdirs: Vec::new(), files: Vec::new() };
        let ghost root0 = root;
        let r = MemoryFileSystem { root };
        proof {
            assert forall|q: Seq<Seq<char>>, n: Seq<char>|
                true implies #[trigger] file_at(r.tree(), q, n) is None by {
                lemma_empty_dir(root0, q, n);
            }
            assert forall|q: Seq<Seq<char>>| q.len() > 0 implies #[trigger] dir_at(r.tree(), q)
                is None by {
                lemma_empty_dir(root0, q, Seq::empty());
            }
        }
        r
    }

    /// Make all directories along a path exist. Fails exactly where
    /// the path climbs out of the root; files are untouched, and the
    /// directories afterwards are exactly those before plus the
    /// prefixes of the path — so the call is idempotent.
    pub fn create_dir_all(&mut self, path: &Vec<char>) -> (r: Result<(), FsError>)
        ensures
            match r {
                Ok(()) => {
                    &&& resolve_path_spec(path@) matches Some(ps) && dir_at(
                        final(self).tree(),
                        ps,
                    ) is Some
                    &&& forall|q: Seq<Seq<char>>, n: Seq<char>| #[trigger] file_at(
                        final(self).tree(),
                        q,
                        n,
                    ) == file_at(old(self).tree(), q, n)
                    &&& forall|q: Seq<Seq<char>>|
                        resolve_path_spec(path@) matches Some(ps) ==> (#[trigger] dir_at(
                            final(self).tree(),
                            q,
                        ) is Some) == (dir_at(old(self).tree(), q) is Some || is_prefix_of(q, ps))
                },
                Err(e) => {
                    &&& resolve_path_spec(path@) is None
                    &&& e == FsError::NotFound
                    &&& final(self).tree() == old(self).tree()
                },
            },
    {
        let parts = match resolve_path(path) {
            Ok(parts) => parts,
            Err(e) => {
                return Err(e);
            },
        };
        let mut taken = Directory { subdirs: Vec::new(), files: Vec::new() };
        core::mem::swap(&mut self.root, &mut taken);
        self.root = create_dir_all_at(taken, &parts, 0);
        proof {
            assert(parts.deep_view().subrange(0, parts.deep_view().len() as int) =~= parts.deep_view());
        }
        Ok(())
    }

    /// Store a file's bytes under a path. Fails exactly where the
    /// path climbs out of the root, names no file, or runs through a
    /// directory that is not there; nothing else moves.
    pub fn write_file(&mut self, path: &Vec<char>, content: &Vec<u8>) -> (r: Result<(), FsError>)
        ensures
            match r {
                Ok(()) => {
                    &&& resolve_path_spec(path@) matches Some(ps) && ps.len() > 0 && (file_at(
                        final(self).tree(),
                        ps.drop_last(),
                        ps.last(),
                    ) matches Some(c) && c@ == content@)
                    &&& forall|q: Seq<Seq<char>>, n: Seq<char>|
                        !(resolve_path_spec(path@) matches Some(ps) && q == ps.drop_last() && n
                            == ps.last()) ==> #[trigger] file_at(final(self).tree(), q, n)
                            == file_at(old(self).tree(), q, n)
                    &&& forall|q: Seq<Seq<char>>|
                        (#[trigger] dir_at(final(self).tree(), q) is Some) == (dir_at(
                            old(self).tree(),
                            q,
                        ) is Some)
                },
                Err(e) => {
                    &&& e == FsError::NotFound
                    &&& match resolve_path_spec(path@) {
                        Some(ps) => ps.len() == 0 || dir_at(old(self).tree(), ps.drop_last())
                            is None,
                        None => true,
                    }
                    &&& forall|q: Seq<Seq<char>>, n: Seq<char>| #[trigger] file_at(
                        final(self).tree(),
                        q,
                        n,
                    ) == file_at(old(self).tree(), q, n)
                    &&& forall|q: Seq<Seq<char>>|
                        (#[trigger] dir_at(final(self).tree(), q) is Some) == (dir_at(
                            old(self).tree(),
                            q,
                        ) is Some)
                },
            },
    {
        let ghost t0 = self.root;
        let mut parts = match resolve_path(path) {
            Ok(parts) => parts,
            Err(_) => {
                proof {
                    lemma_view_frame(t0, self.root);
                }
                return Err(FsError::NotFound);
            },
        };
        let ghost ps = parts.deep_view();
        let name = match parts.pop() {
            Some(name) => name,
            None => {
                proof {
                    lemma_view_frame(t0, self.root);
                }
                return Err(FsError::NotFound);
            },
        };
        proof {
            assert(parts.deep_view() =~~= ps.drop_last());
            assert(name@ =~= ps.last());
        }
        let mut taken = Directory { subdirs: Vec::new(), files: Vec::new() };
        core::mem::swap(&mut self.root, &mut taken);
        let (nd, ok) = write_file_at(taken, &parts, 0, &name, content);
        self.root = nd;
        proof {
            assert(parts.deep_view().subrange(0, parts.deep_view().len() as int) =~= parts.deep_view());
        }
        if ok {
            Ok(())
        } else {
            Err(FsError::NotFound)
        }
    }

    /// Borrow a file's bytes. Fails exactly where the path climbs out
    /// of the root, names no file, or names a file that is not there.
    pub fn read_file(&self, path: &Vec<char>) -> (r: Result<&Vec<u8>, FsError>)
        ensures
            match r {
                Ok(c) => resolve_path_spec(path@) matches Some(ps) && ps.len() > 0 && file_at(
                    self.tree(),
                    ps.drop_last(),
                    ps.last(),
                ) == Some(*c),
                Err(e) => {
                    &&& e == FsError::NotFound
                    &&& match resolve_path_spec(path@) {
                        Some(ps) => ps.len() == 0 || file_at(
                            self.tree(),
                            ps.drop_last(),
                            ps.last(),
                        ) is None,
                        None => true,
                    }
                },
            },
    {
        let mut parts = match resolve_path(path) {
            Ok(parts) => parts,
            Err(_) => {
                return Err(FsError::NotFound);
            },
        };
        let ghost ps = parts.deep_view();
        let name = match parts.pop() {
            Some(name) => name,
            None => {
                return Err(FsError::NotFound);
            },
        };
        proof {
            assert(parts.deep_view() =~~= ps.drop_last());
            assert(name@ =~= ps.last());
        }
        let dd = match dir_ref_at(&self.root, &parts) {
            Some(dd) => dd,
            None => {
                return Err(FsError::NotFound);
            },
        };
        match assoc_index(&dd.files, &name) {
            Some(j) => {
                let entry: &(Vec<char>, Vec<u8>) = &dd.files[j];
                Ok(&entry.1)
            },
            None => Err(FsError::NotFound),
        }
    }

    /// Read a file's bytes as text. Fails with `NotFound` exactly
    /// where `read_file` fails, and with `InvalidInput` exactly where
    /// the file's bytes are not valid UTF-8.
    pub fn read_to_string(&self, path: &Vec<char>) -> (r: Result<String, FsError>)
        ensures
            match r {
                Ok(s) => resolve_path_spec(path@) matches Some(ps) && ps.len() > 0 && (file_at(
                    self.tree(),
                    ps.drop_last(),
                    ps.last(),
                ) matches Some(c) && vstd::utf8::valid_utf8(c@) && s@ == vstd::utf8::decode_utf8(
                    c@,
                )),
                Err(FsError::NotFound) => match resolve_path_spec(path@) {
                    Some(ps) => ps.len() == 0 || file_at(
                        self.tree(),
                        ps.drop_last(),
                        ps.last(),
                    ) is None,
                    None => true,
                },
                Err(FsError::InvalidInput) => resolve_path_spec(path@) matches Some(ps)
                    && ps.len() > 0 && (file_at(self.tree(), ps.drop_last(), ps.last())
                    matches Some(c) && !vstd::utf8::valid_utf8(c@)),
            },
    {
        let bytes = match self.read_file(path) {
            Ok(c) => clone_bytes(c),
            Err(e) => {
                return Err(e);
            },
        };
        match string_from_utf8(bytes) {
            Some(s) => Ok(s),
            None => Err(FsError::InvalidInput),
        }
    }

    /// The size of a file in bytes. Fails exactly where `read_file`
    /// fails: the path climbs out of the root, names no file, or names
    /// a file that is not there.
    pub fn file_size(&self, path: &Vec<char>) -> (r: Result<u64, FsError>)
        ensures
            match r {
                Ok(sz) => resolve_path_spec(path@) matches Some(ps) && ps.len() > 0 && (file_at(
                    self.tree(),
                    ps.drop_last(),
                    ps.last(),
                ) matches Some(c) && sz == c@.len()),
                Err(e) => {
                    &&& e == FsError::NotFound
                    &&& match resolve_path_spec(path@) {
                        Some(ps) => ps.len() == 0 || file_at(
                            self.tree(),
                            ps.drop_last(),
                            ps.last(),
                        ) is None,
                        None => true,
                    }
                },
            },
    {
        match self.read_file(path) {
            Ok(c) => Ok(c.len() as u64),
            Err(e) => Err(e),
        }
    }

    /// Whether a path names a file or a directory whose parent chain
    /// exists.
    pub fn path_exists(&self, path: &Vec<char>) -> (r: bool)
        ensures
            r == match resolve_path_spec(path@) {
                Some(ps) => {
                    if ps.len() == 0 {
                        true
                    } else {
                        match dir_at(self.tree(), ps.drop_last()) {
                            Some(dd) => assoc_find(dd.subdirs@, ps.last(), 0) is Some
                                || assoc_find(dd.files@, ps.last(), 0) is Some,
                            None => false,
                        }
                    }
                },
                None => false,
            },
    {
        let mut parts = match resolve_path(path) {
            Ok(parts) => parts,
            Err(_) => {
                return false;
            },
        };
        let ghost ps = parts.deep_view();
        let name = match parts.pop() {
            Some(name) => name,
            None => {
                return true;
            },
        };
        proof {
            assert(parts.deep_view() =~~= ps.drop_last());
            assert(name@ =~= ps.last());
        }
        let dd = match dir_ref_at(&self.root, &parts) {
            Some(dd) => dd,
            None => {
                return false;
            },
        };
        let in_subdirs = match assoc_index(&dd.subdirs, &name) {
            Some(_) => true,
            None => false,
        };
        if in_subdirs {
            return true;
        }
        match assoc_index(&dd.files, &name) {
            Some(_) => true,
            None => false,
        }
    }

    /// Remove the file a path names. Fails exactly where there is no
    /// such file; nothing else moves.
    pub fn remove_file(&mut self, path: &Vec<char>) -> (r: Result<(), FsError>)
        ensures
            match r {
                Ok(()) => {
                    &&& resolve_path_spec(path@) matches Some(ps) && ps.len() > 0 && file_at(
                        old(self).tree(),
                        ps.drop_last(),
                        ps.last(),
                    ) is Some && file_at(final(self).tree(), ps.drop_last(), ps.last()) is None
                    &&& forall|q: Seq<Seq<char>>, n: Seq<char>|
                        !(resolve_path_spec(path@) matches Some(ps) && q == ps.drop_last() && n
                            == ps.last()) ==> #[trigger] file_at(final(self).tree(), q, n)
                            == file_at(old(self).tree(), q, n)
                    &&& forall|q: Seq<Seq<char>>|
                        (#[trigger] dir_at(final(self).tree(), q) is Some) == (dir_at(
                            old(self).tree(),
                            q,
                        ) is Some)
                },
                Err(e) => {
                    &&& e == FsError::NotFound
                    &&& match resolve_path_spec(path@) {
                        Some(ps) => ps.len() == 0 || file_at(
                            old(self).tree(),
                            ps.drop_last(),
                            ps.last(),
                        ) is None,
                        None => true,
                    }
                    &&& forall|q: Seq<Seq<char>>, n: Seq<char>| #[trigger] file_at(
                        final(self).tree(),
                        q,
                        n,
                    ) == file_at(old(self).tree(), q, n)
                    &&& forall|q: Seq<Seq<char>>|
                        (#[trigger] dir_at(final(self).tree(), q) is Some) == (dir_at(
                            old(self).tree(),
                            q,
                        ) is Some)
                },
            },
    {
        let ghost t0 = self.root;
        let mut parts = match resolve_path(path) {
            Ok(parts) => parts,
            Err(_) => {
                proof {
                    lemma_view_frame(t0, self.root);
                }
                return Err(FsError::NotFound);
            },
        };
        let ghost ps = parts.deep_view();
        let name = match parts.pop() {
            Some(name) => name,
            None => {
                proof {
                    lemma_view_frame(t0, self.root);
                }
                return Err(FsError::NotFound);
            },
        };
        proof {
            assert(parts.deep_view() =~~= ps.drop_last());
            assert(name@ =~= ps.last());
        }
        let mut taken = Directory { subdirs: Vec::new(), files: Vec::new() };
        core::mem::swap(&mut self.root, &mut taken);
        let (nd, ok) = remove_file_at(taken, &parts, 0, &name);
        self.root = nd;
        proof {
            assert(parts.deep_view().subrange(0, parts.deep_view().len() as int) =~= parts.deep_view());
        }
        if ok {
            Ok(())
        } else {
            Err(FsError::NotFound)
        }
    }

    /// Copy a file's bytes to another path. Fails exactly where the
    /// source cannot be read or the target cannot be written; nothing
    /// but the target moves either way.
    pub fn copy(&mut self, from: &Vec<char>, to: &Vec<char>) -> (r: Result<(), FsError>)
        ensures
            match r {
                Ok(()) => {
                    &&& resolve_path_spec(from@) matches Some(fs) && fs.len() > 0 && (file_at(
                        old(self).tree(),
                        fs.drop_last(),
                        fs.last(),
                    ) matches Some(c) && (resolve_path_spec(to@) matches Some(ts) && ts.len() > 0
                        && (file_at(final(self).tree(), ts.drop_last(), ts.last()) matches Some(c2)
                        && c2@ == c@)))
                    &&& forall|q: Seq<Seq<char>>, n: Seq<char>|
                        !(resolve_path_spec(to@) matches Some(ts) && q == ts.drop_last() && n
                            == ts.last()) ==> #[trigger] file_at(final(self).tree(), q, n)
                            == file_at(old(self).tree(), q, n)
                    &&& forall|q: Seq<Seq<char>>|
                        (#[trigger] dir_at(final(self).tree(), q) is Some) == (dir_at(
                            old(self).tree(),
                            q,
                        ) is Some)
                },
                Err(e) => {
                    &&& e == FsError::NotFound
                    &&& {
                        // the source cannot be read, or the target's
                        // directory is not there
                        ||| match resolve_path_spec(from@) {
                            Some(fs) => fs.len() == 0 || file_at(
                                old(self).tree(),
                                fs.drop_last(),
                                fs.last(),
                            ) is None,
                            None => true,
                        }
                        ||| match resolve_path_spec(to@) {
                            Some(ts) => ts.len() == 0 || dir_at(
                                old(self).tree(),
                                ts.drop_last(),
                            ) is None,
                            None => true,
                        }
                    }
                    &&& forall|q: Seq<Seq<char>>, n: Seq<char>| #[trigger] file_at(
                        final(self).tree(),
                        q,
                        n,
                    ) == file_at(old(self).tree(), q, n)
                    &&& forall|q: Seq<Seq<char>>|
                        (#[trigger] dir_at(final(self).tree(), q) is Some) == (dir_at(
                            old(self).tree(),
                            q,
                        ) is Some)
                },
            },
    {
        let bytes = match self.read_file(from) {
            Ok(c) => clone_bytes(c),
            Err(e) => {
                return Err(e);
            },
        };
        self.write_file(to, &bytes)
    }

    /// The names in the directory a path leads to: subdirectories,
    /// then files.
    pub fn list(&self, path: &Vec<char>) -> (r: Result<Vec<Vec<char>>, FsError>)
        ensures
            match r {
                Ok(names) => resolve_path_spec(path@) matches Some(ps) && (dir_at(
                    self.tree(),
                    ps,
                ) matches Some(dd) && names.deep_view() == dir_names(dd)),
                Err(e) => {
                    &&& e == FsError::NotFound
                    &&& match resolve_path_spec(path@) {
                        Some(ps) => dir_at(self.tree(), ps) is None,
                        None => true,
                    }
                },
            },
    {
        let parts = match resolve_path(path) {
            Ok(parts) => parts,
            Err(_) => {
                return Err(FsError::NotFound);
            },
        };
        let dd = match dir_ref_at(&self.root, &parts) {
            Some(dd) => dd,
            None => {
                return Err(FsError::NotFound);
            },
        };
        let mut names: Vec<Vec<char>> = Vec::new();
        let ns = dd.subdirs.len();
        let mut i: usize = 0;
        while i < ns
            invariant
                ns == dd.subdirs@.len(),
                i <= ns,
                names.deep_view() =~= Seq::new(i as nat, |k: int| dd.subdirs@[k].0@),
            decreases ns - i,
        {
            let ghost prev = names.deep_view();
            let entry: &(Vec<char>, Directory) = &dd.subdirs[i];
            let cloned = clone_chars(&entry.0);
            let ghost cv = cloned@;
            names.push(cloned);
            proof {
                assert(names.deep_view() =~~= prev.push(cv));
                assert(prev.push(cv) =~~= Seq::new((i + 1) as nat, |k: int| dd.subdirs@[k].0@));
            }
            i = i + 1;
        }
        let nf = dd.files.len();
        let mut j: usize = 0;
        while j < nf
            invariant
                nf == dd.files@.len(),
                ns == dd.subdirs@.len(),
                j <= nf,
                names.deep_view() =~= Seq::new(ns as nat, |k: int| dd.subdirs@[k].0@) + Seq::new(
                    j as nat,
                    |k: int| dd.files@[k].0@,
                ),
            decreases nf - j,
        {
            let ghost prev = names.deep_view();
            let entry: &(Vec<char>, Vec<u8>) = &dd.files[j];
            let cloned = clone_chars(&entry.0);
            let ghost cv = cloned@;
            names.push(cloned);
            proof {
                assert(names.deep_view() =~~= prev.push(cv));
                assert(prev.push(cv) =~~= Seq::new(ns as nat, |k: int| dd.subdirs@[k].0@)
                    + Seq::new((j + 1) as nat, |k: int| dd.files@[k].0@));
            }
            j = j + 1;
        }
        proof {
            assert(names.deep_view() =~~= dir_names(*dd));
        }
        Ok(names)
    }
}

/// Make the directories along a component list exist, from component
/// `i` on. Files anywhere are untouched, and directories that existed
/// still exist.
fn create_dir_all_at(d: Directory, parts: &Vec<Vec<char>>, i: usize) -> (r: Directory)
    requires
        i <= parts@.len(),
    ensures
        dir_at(r, parts.deep_view().subrange(i as int, parts.deep_view().len() as int)) is Some,
        forall|q: Seq<Seq<char>>, n: Seq<char>| #[trigger] file_at(r, q, n) == file_at(d, q, n),
        forall|q: Seq<Seq<char>>|
            (#[trigger] dir_at(r, q) is Some) == (dir_at(d, q) is Some || is_prefix_of(
                q,
                parts.deep_view().subrange(i as int, parts.deep_view().len() as int),
            )),
    decreases parts@.len() - i,
{
    let ghost d0 = d;
    let ghost pv = parts.deep_view();
    let ghost suffix = pv.subrange(i as int, pv.len() as int);
    if i == parts.len() {
        proof {
            assert(suffix =~= Seq::<Seq<char>>::empty());
            assert forall|q: Seq<Seq<char>>|
                (#[trigger] dir_at(d, q) is Some) == (dir_at(d, q) is Some || is_prefix_of(
                    q,
                    suffix,
                )) by {
                if is_prefix_of(q, suffix) {
                    assert(q =~= Seq::<Seq<char>>::empty());
                }
            }
        }
        return d;
    }
    let name = &parts[i];
    proof {
        assert(pv[i as int] =~= name@);
        assert(suffix[0] == pv[i as int]);
        assert(suffix.drop_first() =~= pv.subrange(i + 1, pv.len() as int));
    }
    let Directory { mut subdirs, files } = d;
    match assoc_index(&subdirs, name) {
        Some(j) => {
            let (sub_name, sub) = subdirs.remove(j);
            let ghost sub0 = sub;
            let rs = create_dir_all_at(sub, parts, i + 1);
            subdirs.insert(j, (sub_name, rs));
            proof {
                assert(subdirs@ =~= d0.subdirs@.update(j as int, (sub_name, rs)));
            }
            let r = Directory { subdirs, files };
            proof {
                lemma_create_frame(d0, r, j as int, name@, sub0, rs, suffix);
            }
            r
        },
        None => {
            let fresh = Directory { subdirs: Vec::new(), files: Vec::new() };
            let ghost fresh0 = fresh;
            let rs = create_dir_all_at(fresh, parts, i + 1);
            proof {
                assert forall|q: Seq<Seq<char>>, n: Seq<char>|
                    true implies #[trigger] file_at(rs, q, n) is None by {
                    lemma_empty_dir(fresh0, q, n);
                }
                assert forall|q: Seq<Seq<char>>|
                    true implies (#[trigger] dir_at(rs, q) is Some) == is_prefix_of(
                    q,
                    suffix.drop_first(),
                ) by {
                    if q.len() > 0 {
                        lemma_empty_dir(fresh0, q, Seq::empty());
                    } else {
                        assert(q =~= suffix.drop_first().subrange(0, 0));
                    }
                }
            }
            subdirs.push((clone_chars(name), rs));
            proof {
                assert(subdirs@ =~= d0.subdirs@.push((subdirs@.last().0, rs)));
                assert(subdirs@.last().0@ == name@);
            }
            let r = Directory { subdirs, files };
            proof {
                lemma_push_frame(d0, r, name@, rs, suffix);
            }
            r
        },
    }
}

/// The frame of replacing the subdirectory under one name: lookups
/// under other names are untouched, so when the replacement preserves
/// files and directories, the whole tree does.
proof fn lemma_create_frame(
    d: Directory,
    r: Directory,
    j: int,
    name: Seq<char>,
    sub: Directory,
    rs: Directory,
    suffix: Seq<Seq<char>>,
)
    requires
        0 <= j < d.subdirs@.len(),
        d.subdirs@[j].0@ == name,
        forall|k: int| 0 <= k < j ==> d.subdirs@[k].0@ != name,
        r.files@ == d.files@,
        r.subdirs@.len() == d.subdirs@.len(),
        r.subdirs@ == d.subdirs@.update(j, (r.subdirs@[j].0, rs)),
        r.subdirs@[j].0@ == name,
        suffix.len() > 0,
        suffix[0] == name,
        forall|q: Seq<Seq<char>>, n: Seq<char>| #[trigger] file_at(rs, q, n) == file_at(sub, q, n),
        forall|q: Seq<Seq<char>>|
            (#[trigger] dir_at(rs, q) is Some) == (dir_at(sub, q) is Some || is_prefix_of(
                q,
                suffix.drop_first(),
            )),
        dir_at(rs, suffix.drop_first()) is Some,
        assoc_find(d.subdirs@, name, 0) == Some(sub),
    ensures
        dir_at(r, suffix) is Some,
        forall|q: Seq<Seq<char>>, n: Seq<char>| #[trigger] file_at(r, q, n) == file_at(d, q, n),
        forall|q: Seq<Seq<char>>|
            (#[trigger] dir_at(r, q) is Some) == (dir_at(d, q) is Some || is_prefix_of(q, suffix)),
{
    assert forall|m: Seq<char>|
        true implies #[trigger] assoc_find(r.subdirs@, m, 0) == (if m == name {
        Some(rs)
    } else {
        assoc_find(d.subdirs@, m, 0)
    }) by {
        lemma_assoc_find_update(d.subdirs@, j, r.subdirs@[j].0, rs, m, 0);
    }
    assert(dir_at(r, suffix) is Some) by {
        lemma_dir_at_step(r, suffix);
    }
    assert forall|q: Seq<Seq<char>>, n: Seq<char>| true implies #[trigger] file_at(r, q, n)
        == file_at(d, q, n) by {
        if q.len() == 0 {
            assert(dir_at(r, q) == Some(r) && dir_at(d, q) == Some(d));
        } else {
            lemma_file_at_step(r, q, n);
            lemma_file_at_step(d, q, n);
        }
    }
    assert forall|q: Seq<Seq<char>>|
        true implies (#[trigger] dir_at(r, q) is Some) == (dir_at(d, q) is Some || is_prefix_of(
        q,
        suffix,
    )) by {
        lemma_prefix_step(q, suffix);
        if q.len() == 0 {
            assert(q =~= suffix.subrange(0, 0));
        } else {
            lemma_dir_at_step(r, q);
            lemma_dir_at_step(d, q);
        }
    }
}

/// The frame of replacing the subdirectory under one name by one that
/// moved a single file: the whole tree moves exactly that file.
proof fn lemma_subst_frame(
    d: Directory,
    r: Directory,
    j: int,
    name: Seq<char>,
    sub: Directory,
    rs: Directory,
    tail: Seq<Seq<char>>,
    fname: Seq<char>,
)
    requires
        0 <= j < d.subdirs@.len(),
        d.subdirs@[j].0@ == name,
        forall|k: int| 0 <= k < j ==> d.subdirs@[k].0@ != name,
        r.files@ == d.files@,
        r.subdirs@ == d.subdirs@.update(j, (r.subdirs@[j].0, rs)),
        r.subdirs@[j].0@ == name,
        assoc_find(d.subdirs@, name, 0) == Some(sub),
        forall|q: Seq<Seq<char>>, n: Seq<char>|
            !(q == tail && n == fname) ==> #[trigger] file_at(rs, q, n) == file_at(sub, q, n),
        forall|q: Seq<Seq<char>>| (#[trigger] dir_at(rs, q) is Some) == (dir_at(sub, q) is Some),
    ensures
        file_at(r, seq![name] + tail, fname) == file_at(rs, tail, fname),
        forall|q: Seq<Seq<char>>, n: Seq<char>|
            !(q == seq![name] + tail && n == fname) ==> #[trigger] file_at(r, q, n) == file_at(
                d,
                q,
                n,
            ),
        forall|q: Seq<Seq<char>>| (#[trigger] dir_at(r, q) is Some) == (dir_at(d, q) is Some),
{
    let suffix = seq![name] + tail;
    assert forall|m: Seq<char>|
        true implies #[trigger] assoc_find(r.subdirs@, m, 0) == (if m == name {
        Some(rs)
    } else {
        assoc_find(d.subdirs@, m, 0)
    }) by {
        lemma_assoc_find_update(d.subdirs@, j, r.subdirs@[j].0, rs, m, 0);
    }
    assert(suffix[0] == name && suffix.drop_first() =~= tail);
    assert(file_at(r, suffix, fname) == file_at(rs, tail, fname)) by {
        lemma_file_at_step(r, suffix, fname);
    }
    assert forall|q: Seq<Seq<char>>, n: Seq<char>|
        !(q == suffix && n == fname) implies #[trigger] file_at(r, q, n) == file_at(d, q, n) by {
        if q.len() == 0 {
        } else {
            lemma_file_at_step(r, q, n);
            lemma_file_at_step(d, q, n);
            if q[0] == name {
                assert(q =~= seq![q[0]] + q.drop_first());
                assert(!(q.drop_first() == tail && n == fname));
            }
        }
    }
    assert forall|q: Seq<Seq<char>>| true implies (#[trigger] dir_at(r, q) is Some) == (dir_at(
        d,
        q,
    ) is Some) by {
        if q.len() > 0 {
            lemma_dir_at_step(r, q);
            lemma_dir_at_step(d, q);
        }
    }
}

/// Two directories with the same entries look the same everywhere.
proof fn lemma_view_frame(d: Directory, r: Directory)
    requires
        r.subdirs@ == d.subdirs@,
        r.files@ == d.files@,
    ensures
        forall|q: Seq<Seq<char>>, n: Seq<char>| #[trigger] file_at(r, q, n) == file_at(d, q, n),
        forall|q: Seq<Seq<char>>| (#[trigger] dir_at(r, q) is Some) == (dir_at(d, q) is Some),
{
    lemma_leaf_frame(d, r);
    assert forall|q: Seq<Seq<char>>, n: Seq<char>| true implies #[trigger] file_at(r, q, n)
        == file_at(d, q, n) by {
        if q.len() == 0 {
            assert(dir_at(r, q) == Some(r) && dir_at(d, q) == Some(d));
        }
    }
}

/// The frame of changing one directory's file list: lookups in every
/// other directory are untouched.
proof fn lemma_leaf_frame(d: Directory, r: Directory)
    requires
        r.subdirs@ == d.subdirs@,
    ensures
        forall|q: Seq<Seq<char>>, n: Seq<char>|
            q.len() > 0 ==> #[trigger] file_at(r, q, n) == file_at(d, q, n),
        forall|q: Seq<Seq<char>>| (#[trigger] dir_at(r, q) is Some) == (dir_at(d, q) is Some),
{
    assert forall|q: Seq<Seq<char>>, n: Seq<char>| q.len() > 0 implies #[trigger] file_at(r, q, n)
        == file_at(d, q, n) by {
        lemma_file_at_step(r, q, n);
        lemma_file_at_step(d, q, n);
    }
    assert forall|q: Seq<Seq<char>>| true implies (#[trigger] dir_at(r, q) is Some) == (dir_at(
        d,
        q,
    ) is Some) by {
        if q.len() > 0 {
            lemma_dir_at_step(r, q);
            lemma_dir_at_step(d, q);
        }
    }
}

/// Store a file's bytes under `name` in the directory `parts[i..]`
/// leads to. Succeeds exactly when that directory exists; nothing
/// else moves.
fn write_file_at(
    d: Directory,
    parts: &Vec<Vec<char>>,
    i: usize,
    name: &Vec<char>,
    content: &Vec<u8>,
) -> (r: (Directory, bool))
    requires
        i <= parts@.len(),
    ensures
        ({
            let suffix = parts.deep_view().subrange(i as int, parts.deep_view().len() as int);
            &&& r.1 == (dir_at(d, suffix) is Some)
            &&& r.1 ==> (file_at(r.0, suffix, name@) matches Some(c) && c@ == content@)
            &&& !r.1 ==> file_at(r.0, suffix, name@) == file_at(d, suffix, name@)
            &&& forall|q: Seq<Seq<char>>, n: Seq<char>|
                !(q == suffix && n == name@) ==> #[trigger] file_at(r.0, q, n) == file_at(d, q, n)
            &&& forall|q: Seq<Seq<char>>|
                (#[trigger] dir_at(r.0, q) is Some) == (dir_at(d, q) is Some)
        }),
    decreases parts@.len() - i,
{
    let ghost d0 = d;
    let ghost pv = parts.deep_view();
    let ghost suffix = pv.subrange(i as int, pv.len() as int);
    let Directory { mut subdirs, mut files } = d;
    if i == parts.len() {
        proof {
            assert(suffix =~= Seq::<Seq<char>>::empty());
        }
        let ghost files0 = files@;
        match assoc_index(&files, name) {
            Some(j) => {
                let (fname, _old_content) = files.remove(j);
                let ghost kept_name = fname;
                files.insert(j, (fname, clone_bytes(content)));
                proof {
                    assert(files@ =~= files0.update(j as int, files@[j as int]));
                    assert(files@[j as int].0 == kept_name);
                    assert forall|m: Seq<char>|
                        true implies #[trigger] assoc_find(files@, m, 0) == (if m == name@ {
                        Some(files@[j as int].1)
                    } else {
                        assoc_find(files0, m, 0)
                    }) by {
                        lemma_assoc_find_update(
                            files0,
                            j as int,
                            files@[j as int].0,
                            files@[j as int].1,
                            m,
                            0,
                        );
                    }
                }
                let r = Directory { subdirs, files };
                proof {
                    lemma_leaf_frame(d0, r);
                    assert forall|q: Seq<Seq<char>>, n: Seq<char>|
                        !(q == suffix && n == name@) implies #[trigger] file_at(r, q, n)
                        == file_at(d0, q, n) by {
                        if q.len() == 0 {
                            assert(q =~= suffix);
                        }
                    }
                }
                (r, true)
            },
            None => {
                files.push((clone_chars(name), clone_bytes(content)));
                proof {
                    assert(files@ =~= files0.push(files@.last()));
                    assert(files@.last().0@ == name@);
                    assert forall|m: Seq<char>|
                        true implies #[trigger] assoc_find(files@, m, 0) == (if m == name@ {
                        Some(files@.last().1)
                    } else {
                        assoc_find(files0, m, 0)
                    }) by {
                        lemma_assoc_find_push(files0, files@.last().0, files@.last().1, m, 0);
                        if m != name@ && assoc_find(files0, m, 0) is None {
                            assert(assoc_find(files@, m, 0) is None);
                        }
                    }
                }
                let r = Directory { subdirs, files };
                proof {
                    lemma_leaf_frame(d0, r);
                    assert forall|q: Seq<Seq<char>>, n: Seq<char>|
                        !(q == suffix && n == name@) implies #[trigger] file_at(r, q, n)
                        == file_at(d0, q, n) by {
                        if q.len() == 0 {
                            assert(q =~= suffix);
                        }
                    }
                }
                (r, true)
            },
        }
    } else {
        let dname = &parts[i];
        proof {
            assert(pv[i as int] =~= dname@);
            assert(suffix[0] == pv[i as int]);
            assert(suffix.drop_first() =~= pv.subrange(i + 1, pv.len() as int));
            assert(suffix =~= seq![suffix[0]] + suffix.drop_first());
        }
        match assoc_index(&subdirs, dname) {
            Some(j) => {
                let (sub_name, sub) = subdirs.remove(j);
                let ghost sub0 = sub;
                let (rs, ok) = write_file_at(sub, parts, i + 1, name, content);
                subdirs.insert(j, (sub_name, rs));
                proof {
                    assert(subdirs@ =~= d0.subdirs@.update(j as int, (sub_name, rs)));
                }
                let r = Directory { subdirs, files };
                if ok {
                    proof {
                        lemma_subst_frame(
                            d0,
                            r,
                            j as int,
                            dname@,
                            sub0,
                            rs,
                            suffix.drop_first(),
                            name@,
                        );
                        lemma_dir_at_step(d0, suffix);
                    }
                    (r, true)
                } else {
                    proof {
                        lemma_subst_frame(
                            d0,
                            r,
                            j as int,
                            dname@,
                            sub0,
                            rs,
                            suffix.drop_first(),
                            name@,
                        );
                        lemma_dir_at_step(d0, suffix);
                        lemma_file_at_step(d0, suffix, name@);
                        lemma_file_at_step(r, suffix, name@);
                    }
                    (r, false)
                }
            },
            None => {
                let r = Directory { subdirs, files };
                proof {
                    lemma_view_frame(d0, r);
                    lemma_dir_at_step(d0, suffix);
                    lemma_file_at_step(d0, suffix, name@);
                    lemma_file_at_step(r, suffix, name@);
                }
                (r, false)
            },
        }
    }
}

/// Drop the file under `name` in the directory `parts[i..]` leads to.
/// Succeeds exactly when that file exists; nothing else moves.
fn remove_file_at(
    d: Directory,
    parts: &Vec<Vec<char>>,
    i: usize,
    name: &Vec<char>,
) -> (r: (Directory, bool))
    requires
        i <= parts@.len(),
    ensures
        ({
            let suffix = parts.deep_view().subrange(i as int, parts.deep_view().len() as int);
            &&& r.1 == (file_at(d, suffix, name@) is Some)
            &&& file_at(r.0, suffix, name@) is None
            &&& forall|q: Seq<Seq<char>>, n: Seq<char>|
                !(q == suffix && n == name@) ==> #[trigger] file_at(r.0, q, n) == file_at(d, q, n)
            &&& forall|q: Seq<Seq<char>>|
                (#[trigger] dir_at(r.0, q) is Some) == (dir_at(d, q) is Some)
        }),
    decreases parts@.len() - i,
{
    let ghost d0 = d;
    let ghost pv = parts.deep_view();
    let ghost suffix = pv.subrange(i as int, pv.len() as int);
    let Directory { mut subdirs, files } = d;
    if i == parts.len() {
        proof {
            assert(suffix =~= Seq::<Seq<char>>::empty());
        }
        let ghost files0 = files@;
        match assoc_index(&files, name) {
            Some(_j) => {
                let files = assoc_remove(files, name);
                proof {
                    assert forall|m: Seq<char>|
                        true implies #[trigger] assoc_find(files@, m, 0) == (if m == name@ {
                        None::<Vec<u8>>
                    } else {
                        assoc_find(files0, m, 0)
                    }) by {
                        lemma_assoc_drop_find(files0, name@, m, 0);
                    }
                }
                let r = Directory { subdirs, files };
                proof {
                    lemma_leaf_frame(d0, r);
                    assert forall|q: Seq<Seq<char>>, n: Seq<char>|
                        !(q == suffix && n == name@) implies #[trigger] file_at(r, q, n)
                        == file_at(d0, q, n) by {
                        if q.len() == 0 {
                            assert(q =~= suffix);
                        }
                    }
                }
                (r, true)
            },
            None => {
                let r = Directory { subdirs, files };
                proof {
                    lemma_view_frame(d0, r);
                }
                (r, false)
            },
        }
    } else {
        let dname = &parts[i];
        proof {
            assert(pv[i as int] =~= dname@);
            assert(suffix[0] == pv[i as int]);
            assert(suffix.drop_first() =~= pv.subrange(i + 1, pv.len() as int));
            assert(suffix =~= seq![suffix[0]] + suffix.drop_first());
        }
        match assoc_index(&subdirs, dname) {
            Some(j) => {
                let (sub_name, sub) = subdirs.remove(j);
                let ghost sub0 = sub;
                let (rs, ok) = remove_file_at(sub, parts, i + 1, name);
                subdirs.insert(j, (sub_name, rs));
                proof {
                    assert(subdirs@ =~= d0.subdirs@.update(j as int, (sub_name, rs)));
                }
                let r = Directory { subdirs, files };
                if ok {
                    proof {
                        lemma_subst_frame(
                            d0,
                            r,
                            j as int,
                            dname@,
                            sub0,
                            rs,
                            suffix.drop_first(),
                            name@,
                        );
                        lemma_file_at_step(d0, suffix, name@);
                    }
                    (r, true)
                } else {
                    proof {
                        lemma_subst_frame(
                            d0,
                            r,
                            j as int,
                            dname@,
                            sub0,
                            rs,
                            suffix.drop_first(),
                            name@,
                        );
                        lemma_file_at_step(d0, suffix, name@);
                        lemma_file_at_step(r, suffix, name@);
                    }
                    (r, false)
                }
            },
            None => {
                let r = Directory { subdirs, files };
                proof {
                    lemma_view_frame(d0, r);
                    lemma_file_at_step(d0, suffix, name@);
                    lemma_file_at_step(r, suffix, name@);
                }
                (r, false)
            },
        }
    }
}

/// The frame of adding a subdirectory under a fresh name: lookups
/// under other names are untouched, and the new subtree is empty but
/// for what was created in it.
proof fn lemma_push_frame(
    d: Directory,
    r: Directory,
    name: Seq<char>,
    rs: Directory,
    suffix: Seq<Seq<char>>,
)
    requires
        assoc_find(d.subdirs@, name, 0) is None,
        r.files@ == d.files@,
        r.subdirs@.len() == d.subdirs@.len() + 1,
        r.subdirs@ == d.subdirs@.push((r.subdirs@.last().0, rs)),
        r.subdirs@.last().0@ == name,
        suffix.len() > 0,
        suffix[0] == name,
        forall|q: Seq<Seq<char>>, n: Seq<char>| #[trigger] file_at(rs, q, n) is None,
        forall|q: Seq<Seq<char>>|
            (#[trigger] dir_at(rs, q) is Some) == is_prefix_of(q, suffix.drop_first()),
        dir_at(rs, suffix.drop_first()) is Some,
    ensures
        dir_at(r, suffix) is Some,
        forall|q: Seq<Seq<char>>, n: Seq<char>| #[trigger] file_at(r, q, n) == file_at(d, q, n),
        forall|q: Seq<Seq<char>>|
            (#[trigger] dir_at(r, q) is Some) == (dir_at(d, q) is Some || is_prefix_of(q, suffix)),
{
    assert forall|m: Seq<char>|
        true implies #[trigger] assoc_find(r.subdirs@, m, 0) == (if m == name {
        Some(rs)
    } else {
        assoc_find(d.subdirs@, m, 0)
    }) by {
        lemma_assoc_find_push(d.subdirs@, r.subdirs@.last().0, rs, m, 0);
        if m != name {
            if assoc_find(d.subdirs@, m, 0) is None {
                assert(assoc_find(r.subdirs@, m, 0) is None);
            }
        }
    }
    assert(dir_at(r, suffix) is Some) by {
        lemma_dir_at_step(r, suffix);
    }
    assert forall|q: Seq<Seq<char>>, n: Seq<char>| true implies #[trigger] file_at(r, q, n)
        == file_at(d, q, n) by {
        if q.len() == 0 {
        } else {
            lemma_file_at_step(r, q, n);
            lemma_file_at_step(d, q, n);
            if q[0] == name {
                // the fresh subtree holds no files, and neither does
                // the missing branch it replaces
                assert(file_at(d, q, n) is None);
                assert(file_at(rs, q.drop_first(), n) is None);
            }
        }
    }
    assert forall|q: Seq<Seq<char>>|
        true implies (#[trigger] dir_at(r, q) is Some) == (dir_at(d, q) is Some || is_prefix_of(
        q,
        suffix,
    )) by {
        lemma_prefix_step(q, suffix);
        if q.len() == 0 {
            assert(q =~= suffix.subrange(0, 0));
        } else {
            lemma_dir_at_step(r, q);
            lemma_dir_at_step(d, q);
        }
    }
}

} // verus!
