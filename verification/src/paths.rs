//! Slash-separated paths as text: joining, parents, names relative to a root,
//! and the rule that keeps an archive entry inside the directory it is
//! unpacked into.

use vstd::prelude::*;
use crate::text::{chars_of, has_prefix, matches_at, occurs_at};

verus! {

/// Length of the part of `s` that precedes its first `/` (all of `s` when it
/// has none).
pub open spec fn head_len(s: Seq<char>) -> int
    decreases s.len(),
{
    if s.len() == 0 || s[0] == '/' {
        0
    } else {
        1 + head_len(s.skip(1))
    }
}

/// The pieces of `s` between its slashes. A text without a slash is one
/// segment; `n` slashes give `n + 1` segments, some of them possibly empty.
pub open spec fn segments(s: Seq<char>) -> Seq<Seq<char>>
    decreases s.len(),
{
    let k = head_len(s);
    if 0 <= k < s.len() {
        seq![s.take(k)] + segments(s.skip(k + 1))
    } else {
        seq![s]
    }
}

/// The segment `..`, which steps to the parent directory.
pub open spec fn is_parent(seg: Seq<char>) -> bool {
    seg == seq!['.', '.']
}

/// An empty segment or `.`, which stays where it is.
pub open spec fn is_idle(seg: Seq<char>) -> bool {
    seg.len() == 0 || seg == seq!['.']
}

/// Following `segs` from `depth` levels below a directory never steps above
/// that directory.
pub open spec fn stays_below(segs: Seq<Seq<char>>, depth: int) -> bool
    decreases segs.len(),
{
    if segs.len() == 0 {
        true
    } else if is_parent(segs[0]) {
        depth >= 1 && stays_below(segs.skip(1), depth - 1)
    } else if is_idle(segs[0]) {
        stays_below(segs.skip(1), depth)
    } else {
        stays_below(segs.skip(1), depth + 1)
    }
}

/// An entry name that can be unpacked safely: it holds no NUL character, is
/// not absolute, and no part of it climbs above the directory it starts in.
pub open spec fn confined(name: Seq<char>) -> bool {
    &&& !name.contains('\0')
    &&& !(name.len() > 0 && name[0] == '/')
    &&& stays_below(segments(name), 0)
}

/// A place as seen from an anchor: so many steps up from the anchor, then
/// down through the directories named.
pub struct Place {
    /// The steps up from the anchor.
    pub climbs: nat,
    /// The names of the directories that lead down from there.
    pub names: Seq<Seq<char>>,
}

/// The next place on a walk, where one segment leads from `from`: `..`
/// steps out of the last directory entered, or one step further up where
/// none is left; a plain name enters a directory.
pub open spec fn step(from: Place, seg: Seq<char>) -> Place {
    if is_parent(seg) {
        if from.names.len() > 0 {
            Place { names: from.names.drop_last(), ..from }
        } else {
            Place { climbs: from.climbs + 1, ..from }
        }
    } else if is_idle(seg) {
        from
    } else {
        Place { names: from.names.push(seg), ..from }
    }
}

/// The place reached by following `segs` from the place `from`.
pub open spec fn walk(from: Place, segs: Seq<Seq<char>>) -> Place
    decreases segs.len(),
{
    if segs.len() == 0 {
        from
    } else {
        walk(step(from, segs[0]), segs.skip(1))
    }
}

/// Where a path leads, as seen from where it starts.
pub open spec fn location(path: Seq<char>) -> Place {
    walk(Place { climbs: 0, names: Seq::empty() }, segments(path))
}

/// `dir`, a slash, then `name`.
pub open spec fn joined(dir: Seq<char>, name: Seq<char>) -> Seq<char> {
    dir + seq!['/'] + name
}

/// Position of the last `/` in `s`, or -1 when it has none.
pub open spec fn last_slash(s: Seq<char>) -> int
    decreases s.len(),
{
    if s.len() == 0 {
        -1
    } else if s.last() == '/' {
        s.len() - 1
    } else {
        last_slash(s.drop_last())
    }
}

/// The text before the last `/` of `path`; empty when it has none.
pub open spec fn parent_dir(path: Seq<char>) -> Seq<char> {
    if last_slash(path) >= 0 {
        path.take(last_slash(path))
    } else {
        Seq::empty()
    }
}

/// A name that denotes a directory: it ends in `/`.
pub open spec fn names_directory(name: Seq<char>) -> bool {
    name.len() > 0 && name.last() == '/'
}

/// The name of `path` relative to `root`: empty for the root itself, the
/// text after `root/` for a path below it, nothing otherwise.
pub open spec fn relative_to(root: Seq<char>, path: Seq<char>) -> Option<Seq<char>> {
    if path == root {
        Some(Seq::empty())
    } else if has_prefix(path, root + seq!['/']) {
        Some(path.skip(root.len() as int + 1))
    } else {
        None
    }
}

/// `head_len` lies within the text, crosses no slash and stops at one.
pub proof fn lemma_head_len(s: Seq<char>)
    ensures
        0 <= head_len(s) <= s.len(),
        forall|j: int| 0 <= j < head_len(s) ==> s[j] != '/',
        head_len(s) < s.len() ==> s[head_len(s)] == '/',
    decreases s.len(),
{
    if s.len() > 0 && s[0] != '/' {
        let t = s.skip(1);
        lemma_head_len(t);
        assert forall|j: int| 0 <= j < head_len(s) implies s[j] != '/' by {
            if j > 0 {
                assert(s[j] == t[j - 1]);
            }
        }
        if head_len(s) < s.len() {
            assert(s[head_len(s)] == t[head_len(t)]);
        }
    }
}

/// One step of `stays_below` along the first segment of `s`.
proof fn lemma_stays_below_step(s: Seq<char>, depth: int)
    ensures
        ({
            let k = head_len(s);
            let seg = s.take(k);
            let next = if is_parent(seg) {
                depth - 1
            } else if is_idle(seg) {
                depth
            } else {
                depth + 1
            };
            stays_below(segments(s), depth) == ((is_parent(seg) ==> depth >= 1) && (k < s.len()
                ==> stays_below(segments(s.skip(k + 1)), next)))
        }),
{
    lemma_head_len(s);
    let k = head_len(s);
    let seg = s.take(k);
    let segs = segments(s);
    let tail = segs.skip(1);
    if k < s.len() {
        let rest = segments(s.skip(k + 1));
        assert(segs == seq![seg] + rest);
        assert(segs.len() > 0);
        assert(segs[0] == seg);
        assert(tail =~= rest);
    } else {
        assert(seg =~= s);
        assert(segs == seq![s]);
        assert(segs.len() == 1);
        assert(segs[0] == seg);
        assert(tail.len() == 0);
        assert(stays_below(tail, depth - 1));
        assert(stays_below(tail, depth));
        assert(stays_below(tail, depth + 1));
    }
    assert(stays_below(segs, depth) == if is_parent(seg) {
        depth >= 1 && stays_below(tail, depth - 1)
    } else if is_idle(seg) {
        stays_below(tail, depth)
    } else {
        stays_below(tail, depth + 1)
    });
}

/// End of the segment of `v` that starts at `start`.
fn segment_end(v: &Vec<char>, start: usize) -> (end: usize)
    requires
        start <= v.len(),
    ensures
        start <= end <= v.len(),
        end - start == head_len(v@.skip(start as int)),
{
    let mut end: usize = start;
    while end < v.len() && v[end] != '/'
        invariant
            start <= end <= v.len(),
            head_len(v@.skip(start as int)) == (end - start) + head_len(v@.skip(end as int)),
        decreases v.len() - end,
    {
        assert(v@.skip(end as int).skip(1) =~= v@.skip(end + 1));
        end += 1;
    }
    end
}

/// Tests whether `v` holds a NUL character.
fn has_nul(v: &Vec<char>) -> (found: bool)
    ensures
        found == v@.contains('\0'),
{
    let mut i: usize = 0;
    while i < v.len()
        invariant
            i <= v.len(),
            forall|j: int| 0 <= j < i ==> v@[j] != '\0',
        decreases v.len() - i,
    {
        if v[i] == '\0' {
            return true;
        }
        i += 1;
    }
    false
}

/// Decides whether an entry name is confined to the directory it is unpacked
/// into.
pub fn is_confined(name: &str) -> (ok: bool)
    ensures
        ok == confined(name@),
{
    let v = chars_of(name);
    if has_nul(&v) {
        return false;
    }
    if v.len() > 0 && v[0] == '/' {
        return false;
    }
    let mut start: usize = 0;
    let mut depth: usize = 0;
    assert(v@.skip(0) =~= v@);
    loop
        invariant
            v@ == name@,
            !v@.contains('\0'),
            !(v@.len() > 0 && v@[0] == '/'),
            start <= v.len(),
            depth <= start,
            stays_below(segments(v@), 0) == stays_below(
                segments(v@.skip(start as int)),
                depth as int,
            ),
        decreases v.len() - start,
    {
        let end = segment_end(&v, start);
        let ghost rest = v@.skip(start as int);
        let ghost seg = rest.take(end - start);
        proof {
            lemma_stays_below_step(rest, depth as int);
            if end < v.len() {
                assert(rest.skip(end - start + 1) =~= v@.skip(end + 1));
            }
        }
        let parent = end - start == 2 && v[start] == '.' && v[start + 1] == '.';
        let idle = end == start || (end - start == 1 && v[start] == '.');
        proof {
            if parent {
                assert(seg =~= seq!['.', '.']);
            } else if end - start == 2 {
                assert(seg[0] == v@[start as int] && seg[1] == v@[start + 1]);
                assert(seq!['.', '.'][0] == '.' && seq!['.', '.'][1] == '.');
            } else {
                assert(seq!['.', '.'].len() == 2);
            }
            if end - start == 1 {
                assert(seg[0] == v@[start as int]);
                assert(seq!['.'][0] == '.');
                if idle {
                    assert(seg =~= seq!['.']);
                }
            } else {
                assert(seq!['.'].len() == 1);
            }
        }
        if parent {
            if depth == 0 {
                return false;
            }
            depth -= 1;
        } else if !idle {
            depth += 1;
        }
        if end == v.len() {
            return true;
        }
        start = end + 1;
    }
}

/// Joins a directory and a name with a slash.
pub fn join(dir: &str, name: &str) -> (path: String)
    ensures
        path@ == joined(dir@, name@),
{
    proof {
        reveal_strlit("/");
    }
    let mut path = String::from_str(dir);
    path.append("/");
    path.append(name);
    assert(path@ =~= joined(dir@, name@)) by {
        assert("/"@ =~= seq!['/']);
    }
    path
}

/// Tests whether a name denotes a directory, that is, ends in a slash.
pub fn is_directory_name(name: &str) -> (yes: bool)
    ensures
        yes == names_directory(name@),
{
    let v = chars_of(name);
    v.len() > 0 && v[v.len() - 1] == '/'
}

/// `last_slash` points at a slash, and none follows it.
pub proof fn lemma_last_slash(s: Seq<char>)
    ensures
        -1 <= last_slash(s) < s.len(),
        last_slash(s) >= 0 ==> s[last_slash(s)] == '/',
        forall|j: int| last_slash(s) < j < s.len() ==> s[j] != '/',
    decreases s.len(),
{
    if s.len() > 0 && s.last() != '/' {
        let t = s.drop_last();
        lemma_last_slash(t);
        assert forall|j: int| last_slash(s) < j < s.len() implies s[j] != '/' by {
            if j < s.len() - 1 {
                assert(s[j] == t[j]);
            }
        }
        if last_slash(s) >= 0 {
            assert(s[last_slash(s)] == t[last_slash(t)]);
        }
    }
}

/// The last slash is the only position that is a slash with none after it.
proof fn lemma_last_slash_is(s: Seq<char>, i: int)
    requires
        -1 <= i < s.len(),
        i >= 0 ==> s[i] == '/',
        forall|j: int| i < j < s.len() ==> s[j] != '/',
    ensures
        last_slash(s) == i,
{
    lemma_last_slash(s);
}

/// The directory that holds `path`: the text before its last slash.
pub fn parent_of(path: &str) -> (dir: String)
    ensures
        dir@ == parent_dir(path@),
{
    let v = chars_of(path);
    let mut i: usize = v.len();
    while i > 0 && v[i - 1] != '/'
        invariant
            i <= v.len(),
            forall|j: int| i <= j < v.len() ==> v@[j] != '/',
        decreases i,
    {
        i -= 1;
    }
    proof {
        lemma_last_slash_is(v@, i - 1);
    }
    if i == 0 {
        String::new()
    } else {
        path.substring_char(0, i - 1).to_owned()
    }
}

/// The name under which `path` is stored when the tree at `root` is
/// archived, if `path` is `root` or lies below it.
pub fn relative_name(root: &str, path: &str) -> (name: Option<String>)
    ensures
        match name {
            Some(n) => relative_to(root@, path@) == Some(n@),
            None => relative_to(root@, path@) is None,
        },
{
    let r = chars_of(root);
    let p = chars_of(path);
    if !matches_at(&p, &r, 0) {
        assert(!has_prefix(path@, root@ + seq!['/'])) by {
            if has_prefix(path@, root@ + seq!['/']) {
                assert(path@.subrange(0, root@.len() as int) =~= path@.subrange(
                    0,
                    root@.len() as int + 1,
                ).subrange(0, root@.len() as int));
                assert((root@ + seq!['/']).subrange(0, root@.len() as int) =~= root@);
            }
        }
        assert(path@ != root@) by {
            if path@ == root@ {
                assert(path@.subrange(0, root@.len() as int) =~= root@);
            }
        }
        return None;
    }
    if p.len() == r.len() {
        assert(path@ =~= path@.subrange(0, root@.len() as int));
        return Some(String::new());
    }
    if p[r.len()] != '/' {
        assert(!has_prefix(path@, root@ + seq!['/'])) by {
            if has_prefix(path@, root@ + seq!['/']) {
                assert(path@.subrange(0, root@.len() as int + 1)[root@.len() as int] == (root@
                    + seq!['/'])[root@.len() as int]);
            }
        }
        return None;
    }
    assert(path@.subrange(0, root@.len() as int + 1) =~= root@ + seq!['/']);
    let rest = path.substring_char(r.len() + 1, p.len()).to_owned();
    assert(rest@ =~= path@.skip(root@.len() as int + 1));
    Some(rest)
}


/// `whole` is the place `base` or a place below it: as many steps up, then
/// down through the directories of `base` and possibly further ones.
pub open spec fn leads_under(whole: Place, base: Place) -> bool {
    &&& whole.climbs == base.climbs
    &&& base.names.len() <= whole.names.len()
    &&& whole.names.take(base.names.len() as int) == base.names
}

/// A position with no slash before it that is the end of the text or a slash
/// is where the first segment ends.
proof fn lemma_head_len_is(s: Seq<char>, k: int)
    requires
        0 <= k <= s.len(),
        forall|j: int| 0 <= j < k ==> s[j] != '/',
        k < s.len() ==> s[k] == '/',
    ensures
        head_len(s) == k,
    decreases s.len(),
{
    if k > 0 {
        let t = s.skip(1);
        assert forall|j: int| 0 <= j < k - 1 implies t[j] != '/' by {
            assert(t[j] == s[j + 1]);
        }
        lemma_head_len_is(t, k - 1);
    }
}

/// Splitting a joined path gives the segments of the directory, then those
/// of the name.
pub proof fn lemma_segments_joined(dir: Seq<char>, name: Seq<char>)
    ensures
        segments(joined(dir, name)) == segments(dir) + segments(name),
    decreases dir.len(),
{
    let p = joined(dir, name);
    let k = head_len(dir);
    lemma_head_len(dir);
    assert forall|j: int| 0 <= j < k implies p[j] != '/' by {
        assert(p[j] == dir[j]);
    }
    if k < dir.len() {
        assert(p[k] == dir[k]);
        lemma_head_len_is(p, k);
        let rest = dir.skip(k + 1);
        assert(p.take(k) =~= dir.take(k));
        assert(p.skip(k + 1) =~= joined(rest, name));
        lemma_segments_joined(rest, name);
        assert(segments(p) == seq![p.take(k)] + segments(p.skip(k + 1)));
        assert(segments(dir) == seq![dir.take(k)] + segments(rest));
        assert(seq![dir.take(k)] + (segments(rest) + segments(name)) =~= (seq![dir.take(k)]
            + segments(rest)) + segments(name));
    } else {
        assert(p[k] == '/');
        lemma_head_len_is(p, k);
        assert(p.take(k) =~= dir);
        assert(p.skip(k + 1) =~= name);
        assert(segments(p) == seq![p.take(k)] + segments(p.skip(k + 1)));
        assert(segments(dir) == seq![dir]);
    }
}

/// Following two lists of segments one after the other is following their
/// concatenation.
pub proof fn lemma_walk_concat(from: Place, a: Seq<Seq<char>>, b: Seq<Seq<char>>)
    ensures
        walk(from, a + b) == walk(walk(from, a), b),
    decreases a.len(),
{
    if a.len() == 0 {
        assert(a + b =~= b);
    } else {
        let ab = a + b;
        assert(ab[0] == a[0]);
        assert(ab.skip(1) =~= a.skip(1) + b);
        lemma_walk_concat(step(from, a[0]), a.skip(1), b);
    }
}

/// Segments that never climb above their start leave the place they start
/// below where it is: the walk takes no step up from it and leaves none of
/// its directories.
pub proof fn lemma_walk_keeps_base(base: Place, extra: Seq<Seq<char>>, segs: Seq<Seq<char>>)
    requires
        stays_below(segs, extra.len() as int),
    ensures
        leads_under(walk(Place { names: base.names + extra, ..base }, segs), base),
    decreases segs.len(),
{
    let from = Place { names: base.names + extra, ..base };
    if segs.len() == 0 {
        assert(from.names.take(base.names.len() as int) =~= base.names);
    } else if is_parent(segs[0]) {
        assert(from.names.drop_last() =~= base.names + extra.drop_last());
        lemma_walk_keeps_base(base, extra.drop_last(), segs.skip(1));
    } else if is_idle(segs[0]) {
        lemma_walk_keeps_base(base, extra, segs.skip(1));
    } else {
        assert(from.names.push(segs[0]) =~= base.names + extra.push(segs[0]));
        lemma_walk_keeps_base(base, extra.push(segs[0]), segs.skip(1));
    }
}

/// A confined name, joined to any directory, leads to that directory or to
/// a place below it: unpacking it never writes outside the directory.
pub proof fn lemma_confined_stays_under(dir: Seq<char>, name: Seq<char>)
    requires
        confined(name),
    ensures
        leads_under(location(joined(dir, name)), location(dir)),
{
    lemma_segments_joined(dir, name);
    lemma_walk_concat(Place { climbs: 0, names: Seq::empty() }, segments(dir), segments(name));
    let base = location(dir);
    assert(base.names + Seq::<Seq<char>>::empty() =~= base.names);
    lemma_walk_keeps_base(base, Seq::empty(), segments(name));
}

} // verus!
