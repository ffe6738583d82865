//! Paths as sequences of components, with `/` as the separator.
//!
//! A path is split the way `std::path::Path::components` splits it on a
//! system whose separator is `/`: a leading `/` is the root component,
//! repeated separators and `.` segments vanish (but for a `.` that starts the
//! path), and `..` is kept as it is.

use crate::text::{chars_of, string_of};
use vstd::prelude::*;

verus! {

/// The root component, `/`.
pub open spec fn root() -> Seq<char> {
    seq!['/']
}

/// The component for the current directory, `.`.
pub open spec fn cur_dir() -> Seq<char> {
    seq!['.']
}

/// The component for the parent directory, `..`.
pub open spec fn parent_dir() -> Seq<char> {
    seq!['.', '.']
}

/// The pieces between the separators of `s`, empty ones included.
pub open spec fn segments(s: Seq<char>) -> Seq<Seq<char>>
    decreases s.len(),
{
    if s.len() == 0 {
        seq![Seq::empty()]
    } else {
        let front = segments(s.drop_last());
        if s.last() == '/' {
            front.push(Seq::empty())
        } else {
            front.drop_last().push(front.last().push(s.last()))
        }
    }
}

/// Whether the segment at index `i` is a component: it is not empty, and it
/// is no `.` behind the start of the path.
pub open spec fn is_component(i: int, segment: Seq<char>) -> bool {
    segment.len() > 0 && !(segment == cur_dir() && i > 0)
}

/// The segments that are components, in order.
pub open spec fn kept_segments(segs: Seq<Seq<char>>) -> Seq<Seq<char>>
    decreases segs.len(),
{
    if segs.len() == 0 {
        Seq::empty()
    } else {
        let front = kept_segments(segs.drop_last());
        if is_component(segs.len() - 1, segs.last()) {
            front.push(segs.last())
        } else {
            front
        }
    }
}

/// Whether the path starts at the root.
pub open spec fn has_root(s: Seq<char>) -> bool {
    s.len() > 0 && s[0] == '/'
}

/// The components of the path `s`.
pub open spec fn components(s: Seq<char>) -> Seq<Seq<char>> {
    if has_root(s) {
        seq![root()] + kept_segments(segments(s))
    } else {
        kept_segments(segments(s))
    }
}

/// The path without its last component. There is none for the empty path
/// and for the root.
pub open spec fn parent_of(c: Seq<Seq<char>>) -> Option<Seq<Seq<char>>> {
    if c.len() == 0 || c.last() == root() {
        None
    } else {
        Some(c.drop_last())
    }
}

/// The last component, if it names a file or a directory.
pub open spec fn file_name_of(c: Seq<Seq<char>>) -> Option<Seq<char>> {
    if c.len() > 0 && c.last() != root() && c.last() != cur_dir() && c.last() != parent_dir() {
        Some(c.last())
    } else {
        None
    }
}

/// The components behind the first one.
pub open spec fn skip_first(c: Seq<Seq<char>>) -> Seq<Seq<char>> {
    if c.len() > 0 {
        c.skip(1)
    } else {
        c
    }
}

/// `n` times the component `..`.
pub open spec fn parents(n: nat) -> Seq<Seq<char>> {
    Seq::new(n, |i: int| parent_dir())
}

/// The components joined by `/`.
pub open spec fn join_spec(c: Seq<Seq<char>>) -> Seq<char>
    decreases c.len(),
{
    if c.len() == 0 {
        Seq::empty()
    } else if c.len() == 1 {
        c[0]
    } else {
        join_spec(c.drop_last()).push('/') + c.last()
    }
}

/// The text with `/` in place of every `\`.
pub open spec fn forward_slashes(s: Seq<char>) -> Seq<char> {
    s.map_values(
        |c: char|
            if c == '\\' {
                '/'
            } else {
                c
            },
    )
}

/// The way from the directory `from` to the directory `to`, given the
/// components `acc` that were found so far. Both are walked from their front:
/// while nothing was found yet, equal components cancel; a `.` in `from`
/// lets the component of `to` through, a `..` in `from` has no way back; at
/// the first real difference every component left of `from` is climbed with
/// `..` and the rest of `to` follows.
pub open spec fn diff_spec(to: Seq<Seq<char>>, from: Seq<Seq<char>>, acc: Seq<Seq<char>>) -> Option<
    Seq<Seq<char>>,
>
    decreases to.len() + from.len(),
{
    if from.len() == 0 {
        Some(acc + to)
    } else if to.len() == 0 {
        diff_spec(to, from.skip(1), acc.push(parent_dir()))
    } else if acc.len() == 0 && to[0] == from[0] {
        diff_spec(to.skip(1), from.skip(1), acc)
    } else if from[0] == cur_dir() {
        diff_spec(to.skip(1), from.skip(1), acc.push(to[0]))
    } else if from[0] == parent_dir() {
        None
    } else {
        Some(acc + parents(from.len()) + to)
    }
}

/// The relative link that leads from the document `start` to the file that
/// the root-relative link `destination` names.
pub open spec fn relative_path_spec(start: Seq<char>, destination: Seq<char>) -> Option<Seq<char>> {
    let from = parent_of(components(start));
    let name = file_name_of(components(destination));
    let to = parent_of(components(destination));
    if from is Some && name is Some && to is Some {
        match diff_spec(skip_first(to->Some_0), from->Some_0, Seq::empty()) {
            Some(c) => Some(forward_slashes(join_spec(c.push(name->Some_0)))),
            None => None,
        }
    } else {
        None
    }
}

/// The components that the vectors hold.
pub open spec fn views(v: Seq<Vec<char>>) -> Seq<Seq<char>> {
    v.map_values(|c: Vec<char>| c@)
}

/// A copy of the characters.
pub fn copy_chars(v: &Vec<char>) -> (out: Vec<char>)
    ensures
        out@ == v@,
{
    let mut out: Vec<char> = Vec::new();
    let mut i: usize = 0;
    while i < v.len()
        invariant
            i <= v.len(),
            out@ == v@.take(i as int),
        decreases v.len() - i,
    {
        out.push(v[i]);
        i += 1;
    }
    out
}

/// Whether the two hold the same characters.
pub fn same_chars(a: &Vec<char>, b: &Vec<char>) -> (same: bool)
    ensures
        same == (a@ == b@),
{
    if a.len() != b.len() {
        return false;
    }
    let mut i: usize = 0;
    while i < a.len()
        invariant
            i <= a.len(),
            a.len() == b.len(),
            forall|k: int| 0 <= k < i ==> a@[k] == b@[k],
        decreases a.len() - i,
    {
        if a[i] != b[i] {
            return false;
        }
        i += 1;
    }
    assert(a@ =~= b@);
    true
}

/// Whether the component is `.`.
pub fn is_cur_dir(c: &Vec<char>) -> (r: bool)
    ensures
        r == (c@ == cur_dir()),
{
    let r = c.len() == 1 && c[0] == '.';
    proof {
        if r {
            assert(c@ =~= cur_dir());
        }
    }
    r
}

/// Whether the component is `..`.
pub fn is_parent_dir(c: &Vec<char>) -> (r: bool)
    ensures
        r == (c@ == parent_dir()),
{
    let r = c.len() == 2 && c[0] == '.' && c[1] == '.';
    proof {
        if r {
            assert(c@ =~= parent_dir());
        }
    }
    r
}

/// Whether the component is the root.
pub fn is_root(c: &Vec<char>) -> (r: bool)
    ensures
        r == (c@ == root()),
{
    let r = c.len() == 1 && c[0] == '/';
    proof {
        if r {
            assert(c@ =~= root());
        }
    }
    r
}

/// Splits the path into its components.
pub fn split_components(s: &Vec<char>) -> (out: Vec<Vec<char>>)
    ensures
        views(out@) == components(s@),
{
    let mut out: Vec<Vec<char>> = Vec::new();
    if s.len() > 0 && s[0] == '/' {
        let mut r: Vec<char> = Vec::new();
        r.push('/');
        out.push(r);
    }
    let ghost base = views(out@);
    // `count` segments are complete, `cur` is the one being read.
    let mut cur: Vec<char> = Vec::new();
    let mut count: usize = 0;
    let mut i: usize = 0;
    while i < s.len()
        invariant
            i <= s.len(),
            count <= i,
            segments(s@.take(i as int)).len() == count + 1,
            segments(s@.take(i as int)).last() == cur@,
            views(out@) == base + kept_segments(segments(s@.take(i as int)).drop_last()),
        decreases s.len() - i,
    {
        let c = s[i];
        let ghost before = segments(s@.take(i as int));
        let ghost after = segments(s@.take(i + 1));
        proof {
            assert(s@.take(i + 1).drop_last() =~= s@.take(i as int));
        }
        if c == '/' {
            proof {
                assert(after.drop_last() =~= before);
            }
            let keep = cur.len() > 0 && !(count > 0 && is_cur_dir(&cur));
            if keep {
                let ghost old_out = views(out@);
                out.push(cur);
                proof {
                    assert(views(out@) =~= old_out.push(before.last()));
                }
            }
            cur = Vec::new();
            count += 1;
        } else {
            proof {
                assert(after.drop_last() =~= before.drop_last());
            }
            cur.push(c);
        }
        i += 1;
    }
    proof {
        assert(s@.take(s@.len() as int) =~= s@);
    }
    let keep = cur.len() > 0 && !(count > 0 && is_cur_dir(&cur));
    if keep {
        let ghost old_out = views(out@);
        let ghost last = cur@;
        out.push(cur);
        proof {
            assert(views(out@) =~= old_out.push(last));
        }
    }
    out
}

/// Joins the components with `/`.
pub fn join_components(c: &Vec<Vec<char>>) -> (out: Vec<char>)
    ensures
        out@ == join_spec(views(c@)),
{
    let mut out: Vec<char> = Vec::new();
    let mut i: usize = 0;
    while i < c.len()
        invariant
            i <= c.len(),
            out@ == join_spec(views(c@).take(i as int)),
        decreases c.len() - i,
    {
        let ghost front = views(c@).take(i as int);
        let ghost next = views(c@).take(i + 1);
        proof {
            assert(next.drop_last() =~= front);
        }
        if i > 0 {
            out.push('/');
        }
        let part = &c[i];
        let ghost start = out@;
        let mut k: usize = 0;
        while k < part.len()
            invariant
                k <= part.len(),
                out@ == start + part@.take(k as int),
            decreases part.len() - k,
        {
            out.push(part[k]);
            k += 1;
        }
        i += 1;
    }
    assert(views(c@).take(c@.len() as int) =~= views(c@));
    out
}

/// A copy of the components `lo..hi`.
pub fn copy_range(v: &Vec<Vec<char>>, lo: usize, hi: usize) -> (out: Vec<Vec<char>>)
    requires
        lo <= hi <= v.len(),
    ensures
        views(out@) == views(v@).subrange(lo as int, hi as int),
{
    let mut out: Vec<Vec<char>> = Vec::new();
    let mut i: usize = lo;
    while i < hi
        invariant
            lo <= i <= hi <= v.len(),
            views(out@) == views(v@).subrange(lo as int, i as int),
        decreases hi - i,
    {
        let ghost before = views(out@);
        let part = copy_chars(&v[i]);
        out.push(part);
        i += 1;
        assert(views(out@) =~= before.push(v@[i - 1]@));
    }
    out
}

/// Appends copies of the components `lo..` of `v` to `acc`.
pub fn append_from(acc: &mut Vec<Vec<char>>, v: &Vec<Vec<char>>, lo: usize)
    requires
        lo <= v.len(),
    ensures
        views(final(acc)@) == views(old(acc)@) + views(v@).skip(lo as int),
{
    let ghost start = views(acc@);
    let mut i: usize = lo;
    while i < v.len()
        invariant
            lo <= i <= v.len(),
            views(acc@) == start + views(v@).subrange(lo as int, i as int),
        decreases v.len() - i,
    {
        let ghost before = views(acc@);
        let part = copy_chars(&v[i]);
        acc.push(part);
        i += 1;
        assert(views(acc@) =~= before.push(v@[i - 1]@));
    }
}

/// Appends `n` times the component `..` to `acc`.
pub fn append_parents(acc: &mut Vec<Vec<char>>, n: usize)
    ensures
        views(final(acc)@) == views(old(acc)@) + parents(n as nat),
{
    let ghost start = views(acc@);
    let mut i: usize = 0;
    while i < n
        invariant
            i <= n,
            views(acc@) == start + parents(i as nat),
        decreases n - i,
    {
        let ghost before = views(acc@);
        let mut up: Vec<char> = Vec::new();
        up.push('.');
        up.push('.');
        assert(up@ =~= parent_dir());
        acc.push(up);
        i += 1;
        assert(views(acc@) =~= before.push(parent_dir()));
    }
}

/// The way from the directory `from` to the directory `to`, if there is one.
pub fn diff_components(to: &Vec<Vec<char>>, from: &Vec<Vec<char>>) -> (r: Option<Vec<Vec<char>>>)
    ensures
        match diff_spec(views(to@), views(from@), Seq::empty()) {
            Some(c) => r matches Some(v) && views(v@) == c,
            None => r is None,
        },
{
    let ghost t = views(to@);
    let ghost f = views(from@);
    let mut acc: Vec<Vec<char>> = Vec::new();
    let mut ia: usize = 0;
    let mut ib: usize = 0;
    assert(t.skip(0) =~= t);
    assert(f.skip(0) =~= f);
    assert(views(acc@) =~= Seq::empty());
    while ib < from.len()
        invariant
            ia <= to.len(),
            ib <= from.len(),
            t == views(to@),
            f == views(from@),
            diff_spec(t, f, Seq::empty()) == diff_spec(
                t.skip(ia as int),
                f.skip(ib as int),
                views(acc@),
            ),
        decreases from.len() - ib,
    {
        let ghost tt = t.skip(ia as int);
        let ghost ff = f.skip(ib as int);
        let ghost a0 = views(acc@);
        proof {
            assert(ff.skip(1) =~= f.skip(ib + 1));
            if ia < to.len() {
                assert(tt.skip(1) =~= t.skip(ia + 1));
            }
        }
        if ia >= to.len() {
            let mut up: Vec<char> = Vec::new();
            up.push('.');
            up.push('.');
            assert(up@ =~= parent_dir());
            acc.push(up);
            assert(views(acc@) =~= a0.push(parent_dir()));
            ib += 1;
        } else if acc.len() == 0 && same_chars(&to[ia], &from[ib]) {
            ia += 1;
            ib += 1;
        } else if is_cur_dir(&from[ib]) {
            let part = copy_chars(&to[ia]);
            acc.push(part);
            assert(views(acc@) =~= a0.push(tt[0]));
            ia += 1;
            ib += 1;
        } else if is_parent_dir(&from[ib]) {
            return None;
        } else {
            append_parents(&mut acc, from.len() - ib);
            append_from(&mut acc, to, ia);
            return Some(acc);
        }
    }
    append_from(&mut acc, to, ia);
    Some(acc)
}

/// The text with `/` in place of every `\`.
pub fn with_forward_slashes(s: &Vec<char>) -> (out: Vec<char>)
    ensures
        out@ == forward_slashes(s@),
{
    let mut out: Vec<char> = Vec::new();
    let mut i: usize = 0;
    while i < s.len()
        invariant
            i <= s.len(),
            out@ == forward_slashes(s@).take(i as int),
        decreases s.len() - i,
    {
        let c = s[i];
        if c == '\\' {
            out.push('/');
        } else {
            out.push(c);
        }
        i += 1;
    }
    out
}

/// Suggests the relative link that leads from the document `start` to the
/// file that the root-relative link `destination` names. There is no
/// suggestion where `start` has no directory, where `destination` names no
/// file, or where the directory of `start` climbs with `..` past what the
/// two have in common.
pub fn relative_path_to_file(start: &str, destination: &str) -> (r: Option<String>)
    ensures
        match relative_path_spec(start@, destination@) {
            Some(link) => r matches Some(s) && s@ == link,
            None => r is None,
        },
{
    let start_chars = chars_of(start);
    let destination_chars = chars_of(destination);
    let sc = split_components(&start_chars);
    let dc = split_components(&destination_chars);
    if sc.len() == 0 || is_root(&sc[sc.len() - 1]) {
        return None;
    }
    if dc.len() == 0 {
        return None;
    }
    let name = &dc[dc.len() - 1];
    if is_root(name) || is_cur_dir(name) || is_parent_dir(name) {
        return None;
    }
    let from = copy_range(&sc, 0, sc.len() - 1);
    let first: usize = if dc.len() - 1 > 0 {
        1
    } else {
        0
    };
    let to = copy_range(&dc, first, dc.len() - 1);
    proof {
        assert(views(to@) =~= skip_first(views(dc@).drop_last()));
    }
    match diff_components(&to, &from) {
        None => None,
        Some(found) => {
            let mut all = found;
            let ghost before = views(all@);
            all.push(copy_chars(name));
            assert(views(all@) =~= before.push(name@));
            let joined = join_components(&all);
            let link = with_forward_slashes(&joined);
            Some(string_of(&link))
        },
    }
}

/// Whether the component names a file or a directory: it is neither the
/// root nor `.` nor `..`.
pub open spec fn is_normal(c: Seq<char>) -> bool {
    c != root() && c != cur_dir() && c != parent_dir()
}

/// The path `acc` followed by the component `next`, with `.` and `..`
/// resolved: `.` changes nothing, `..` takes the last name away, stays at the
/// root, and is kept where there is nothing to take.
pub open spec fn normalize_step(acc: Seq<Seq<char>>, next: Seq<char>) -> Seq<Seq<char>> {
    if next == cur_dir() {
        acc
    } else if next == parent_dir() {
        if acc.len() > 0 && is_normal(acc.last()) {
            acc.drop_last()
        } else if acc.len() > 0 && acc.last() == root() {
            acc
        } else {
            acc.push(next)
        }
    } else {
        acc.push(next)
    }
}

/// Whether the path `c` lies at or below the path `prefix`.
pub open spec fn starts_with(c: Seq<Seq<char>>, prefix: Seq<Seq<char>>) -> bool {
    prefix.len() <= c.len() && c.take(prefix.len() as int) == prefix
}

/// The path without its root component.
pub open spec fn strip_root(c: Seq<Seq<char>>) -> Seq<Seq<char>> {
    if c.len() > 0 && c[0] == root() {
        c.skip(1)
    } else {
        c
    }
}

/// The position of the last `.` of the name, or -1.
pub open spec fn last_dot(name: Seq<char>) -> int
    decreases name.len(),
{
    if name.len() == 0 {
        -1
    } else if name.last() == '.' {
        name.len() - 1
    } else {
        last_dot(name.drop_last())
    }
}

/// The extension of a file name: what stands behind its last `.`, unless
/// the name starts with that `.` or has none.
pub open spec fn extension_of(name: Seq<char>) -> Option<Seq<char>> {
    if name == parent_dir() || last_dot(name) <= 0 {
        None
    } else {
        Some(name.skip(last_dot(name) + 1))
    }
}

/// The file name without its extension.
pub open spec fn file_stem_of(name: Seq<char>) -> Seq<char> {
    if name == parent_dir() || last_dot(name) <= 0 {
        name
    } else {
        name.take(last_dot(name))
    }
}

/// The file name with `ext` for its extension.
pub open spec fn with_extension(name: Seq<char>, ext: Seq<char>) -> Seq<char> {
    if ext.len() == 0 {
        file_stem_of(name)
    } else {
        file_stem_of(name).push('.') + ext
    }
}

/// The character in lower case, if it is a letter of ASCII.
pub open spec fn lower_char(c: char) -> char {
    if 'A' <= c && c <= 'Z' {
        ((c as u8) + 32) as char
    } else {
        c
    }
}

/// The text with its ASCII letters in lower case.
pub open spec fn ascii_lower(s: Seq<char>) -> Seq<char> {
    s.map_values(|c: char| lower_char(c))
}

/// Whether the component names a file or a directory.
pub fn is_normal_component(c: &Vec<char>) -> (r: bool)
    ensures
        r == is_normal(c@),
{
    !is_root(c) && !is_cur_dir(c) && !is_parent_dir(c)
}

/// Resolves the `.` and `..` components of `c` by the text alone, behind the
/// components of `base`, which are taken as they are.
pub fn normalize_onto(base: Vec<Vec<char>>, c: &Vec<Vec<char>>) -> (out: Vec<Vec<char>>)
    ensures
        views(out@) == normalize_from(views(base@), views(c@)),
{
    let mut out = base;
    let ghost b = views(base@);
    let ghost all = views(c@);
    let mut i: usize = 0;
    while i < c.len()
        invariant
            i <= c.len(),
            all == views(c@),
            views(out@) == normalize_from(b, all.take(i as int)),
        decreases c.len() - i,
    {
        proof {
            assert(all.take(i + 1).drop_last() =~= all.take(i as int));
        }
        let next = &c[i];
        if is_cur_dir(next) {
        } else if is_parent_dir(next) {
            let n: usize = out.len();
            if n > 0 && is_normal_component(&out[n - 1]) {
                out.pop();
            } else if n > 0 && is_root(&out[n - 1]) {
            } else {
                out.push(copy_chars(next));
            }
        } else {
            out.push(copy_chars(next));
        }
        i += 1;
    }
    assert(all.take(all.len() as int) =~= all);
    out
}

/// The path `base` followed by the components `c`, with the `.` and `..`
/// among `c` resolved.
pub open spec fn normalize_from(base: Seq<Seq<char>>, c: Seq<Seq<char>>) -> Seq<Seq<char>>
    decreases c.len(),
{
    if c.len() == 0 {
        base
    } else {
        normalize_step(normalize_from(base, c.drop_last()), c.last())
    }
}

/// Whether the two paths have the same components.
pub fn same_components(a: &Vec<Vec<char>>, b: &Vec<Vec<char>>) -> (same: bool)
    ensures
        same == (views(a@) == views(b@)),
{
    if a.len() != b.len() {
        return false;
    }
    let mut i: usize = 0;
    while i < a.len()
        invariant
            i <= a.len(),
            a.len() == b.len(),
            forall|k: int| 0 <= k < i ==> a@[k]@ == b@[k]@,
        decreases a.len() - i,
    {
        if !same_chars(&a[i], &b[i]) {
            assert(views(a@)[i as int] != views(b@)[i as int]);
            return false;
        }
        i += 1;
    }
    assert(views(a@) =~= views(b@));
    true
}

/// Whether the path `c` lies at or below the path `prefix`.
pub fn path_starts_with(c: &Vec<Vec<char>>, prefix: &Vec<Vec<char>>) -> (r: bool)
    ensures
        r == starts_with(views(c@), views(prefix@)),
{
    if prefix.len() > c.len() {
        return false;
    }
    let mut i: usize = 0;
    while i < prefix.len()
        invariant
            i <= prefix.len() <= c.len(),
            forall|k: int| 0 <= k < i ==> c@[k]@ == prefix@[k]@,
        decreases prefix.len() - i,
    {
        if !same_chars(&c[i], &prefix[i]) {
            assert(views(c@).take(prefix@.len() as int)[i as int] != views(prefix@)[i as int]);
            return false;
        }
        i += 1;
    }
    assert(views(c@).take(prefix@.len() as int) =~= views(prefix@));
    true
}

/// The position of the last `.` of the name, if it has one.
pub fn find_last_dot(name: &Vec<char>) -> (at: Option<usize>)
    ensures
        match at {
            Some(i) => last_dot(name@) == i && i < name@.len(),
            None => last_dot(name@) == -1,
        },
{
    let mut i: usize = name.len();
    assert(name@.take(i as int) =~= name@);
    while i > 0
        invariant
            i <= name.len(),
            last_dot(name@) == last_dot(name@.take(i as int)),
        decreases i,
    {
        proof {
            assert(name@.take(i as int).drop_last() =~= name@.take(i - 1));
        }
        if name[i - 1] == '.' {
            return Some(i - 1);
        }
        i -= 1;
    }
    None
}

/// The extension of the file name, if it has one.
pub fn extension(name: &Vec<char>) -> (ext: Option<Vec<char>>)
    ensures
        match extension_of(name@) {
            Some(e) => ext matches Some(v) && v@ == e,
            None => ext is None,
        },
{
    if is_parent_dir(name) {
        return None;
    }
    match find_last_dot(name) {
        Some(d) => {
            if d == 0 {
                None
            } else {
                let n: usize = name.len();
                let mut out: Vec<char> = Vec::new();
                let mut i: usize = d + 1;
                while i < n
                    invariant
                        d + 1 <= i <= n,
                        n == name.len(),
                        out@ == name@.subrange(d + 1, i as int),
                    decreases n - i,
                {
                    out.push(name[i]);
                    i += 1;
                }
                Some(out)
            }
        },
        None => None,
    }
}

/// The file name with `ext` for its extension.
pub fn replace_extension(name: &Vec<char>, ext: &Vec<char>) -> (out: Vec<char>)
    ensures
        out@ == with_extension(name@, ext@),
{
    let stem_len: usize = if is_parent_dir(name) {
        name.len()
    } else {
        match find_last_dot(name) {
            Some(d) => if d == 0 {
                name.len()
            } else {
                d
            },
            None => name.len(),
        }
    };
    let mut out: Vec<char> = Vec::new();
    let mut i: usize = 0;
    while i < stem_len
        invariant
            i <= stem_len <= name.len(),
            out@ == name@.take(i as int),
        decreases stem_len - i,
    {
        out.push(name[i]);
        i += 1;
    }
    if ext.len() > 0 {
        out.push('.');
        let ghost start = out@;
        let mut k: usize = 0;
        while k < ext.len()
            invariant
                k <= ext.len(),
                out@ == start + ext@.take(k as int),
            decreases ext.len() - k,
        {
            out.push(ext[k]);
            k += 1;
        }
    }
    out
}

/// The text with its ASCII letters in lower case.
pub fn to_ascii_lower(s: &Vec<char>) -> (out: Vec<char>)
    ensures
        out@ == ascii_lower(s@),
{
    let mut out: Vec<char> = Vec::new();
    let mut i: usize = 0;
    while i < s.len()
        invariant
            i <= s.len(),
            out@ == ascii_lower(s@).take(i as int),
        decreases s.len() - i,
    {
        let c = s[i];
        if 'A' <= c && c <= 'Z' {
            let lower: u8 = (c as u8) + 32;
            out.push(lower as char);
        } else {
            out.push(c);
        }
        i += 1;
    }
    out
}

/// The components of the path that the text holds.
pub fn components_of(path: &str) -> (out: Vec<Vec<char>>)
    ensures
        views(out@) == components(path@),
{
    let chars = chars_of(path);
    split_components(&chars)
}

/// The path as a text: the components joined by `/`, behind the root if the
/// path has one.
pub open spec fn path_text(c: Seq<Seq<char>>) -> Seq<char> {
    if c.len() > 0 && c[0] == root() {
        root() + join_spec(c.skip(1))
    } else {
        join_spec(c)
    }
}

/// The path as a text.
pub fn path_to_string(c: &Vec<Vec<char>>) -> (out: String)
    ensures
        out@ == path_text(views(c@)),
{
    if c.len() > 0 && is_root(&c[0]) {
        let rest = copy_range(c, 1, c.len());
        let mut text: Vec<char> = Vec::new();
        text.push('/');
        let joined = join_components(&rest);
        let ghost start = text@;
        let mut k: usize = 0;
        while k < joined.len()
            invariant
                k <= joined.len(),
                text@ == start + joined@.take(k as int),
            decreases joined.len() - k,
        {
            text.push(joined[k]);
            k += 1;
        }
        string_of(&text)
    } else {
        let joined = join_components(c);
        string_of(&joined)
    }
}

/// The path without its last component, if it has one to leave out.
pub fn parent_components(c: &Vec<Vec<char>>) -> (parent: Option<Vec<Vec<char>>>)
    ensures
        match parent_of(views(c@)) {
            Some(p) => parent matches Some(v) && views(v@) == p,
            None => parent is None,
        },
{
    let n: usize = c.len();
    if n == 0 {
        return None;
    }
    if is_root(&c[n - 1]) {
        return None;
    }
    let parent = copy_range(c, 0, n - 1);
    Some(parent)
}

/// The last component, if it names a file or a directory.
pub fn file_name(c: &Vec<Vec<char>>) -> (name: Option<Vec<char>>)
    ensures
        match file_name_of(views(c@)) {
            Some(n) => name matches Some(v) && v@ == n,
            None => name is None,
        },
{
    let n: usize = c.len();
    if n == 0 {
        return None;
    }
    if is_normal_component(&c[n - 1]) {
        Some(copy_chars(&c[n - 1]))
    } else {
        None
    }
}

/// The name as a text, if there is one.
pub open spec fn name_view(name: Option<Vec<char>>) -> Option<Seq<char>> {
    match name {
        Some(v) => Some(v@),
        None => None,
    }
}

/// The path as its components, if there is one.
pub open spec fn path_view(path: Option<Vec<Vec<char>>>) -> Option<Seq<Seq<char>>> {
    match path {
        Some(v) => Some(views(v@)),
        None => None,
    }
}

/// Whether both are the same name, or both are none.
pub fn same_name(a: &Option<Vec<char>>, b: &Option<Vec<char>>) -> (same: bool)
    ensures
        same == (name_view(*a) == name_view(*b)),
{
    match (a, b) {
        (Some(x), Some(y)) => same_chars(x, y),
        (None, None) => true,
        _ => false,
    }
}

/// Whether both are the same path, or both are none.
pub fn same_path(a: &Option<Vec<Vec<char>>>, b: &Option<Vec<Vec<char>>>) -> (same: bool)
    ensures
        same == (path_view(*a) == path_view(*b)),
{
    match (a, b) {
        (Some(x), Some(y)) => same_components(x, y),
        (None, None) => true,
        _ => false,
    }
}

/// Whether the characters are those of the text.
pub fn chars_are(v: &Vec<char>, text: &str) -> (same: bool)
    ensures
        same == (v@ == text@),
{
    let t = chars_of(text);
    same_chars(v, &t)
}

/// The number of components that two paths have in common at their front.
pub open spec fn common_prefix(a: Seq<Seq<char>>, b: Seq<Seq<char>>) -> nat
    decreases a.len(),
{
    if a.len() > 0 && b.len() > 0 && a[0] == b[0] {
        1 + common_prefix(a.skip(1), b.skip(1))
    } else {
        0
    }
}

/// Whether none of the components is `.` or `..`.
pub open spec fn all_normal(c: Seq<Seq<char>>) -> bool {
    forall|i: int| 0 <= i < c.len() ==> #[trigger] c[i] != cur_dir() && c[i] != parent_dir()
}

/// The common front of two paths is no longer than either.
pub proof fn lemma_common_prefix_bound(a: Seq<Seq<char>>, b: Seq<Seq<char>>)
    ensures
        common_prefix(a, b) <= a.len(),
        common_prefix(a, b) <= b.len(),
    decreases a.len(),
{
    if a.len() > 0 && b.len() > 0 && a[0] == b[0] {
        lemma_common_prefix_bound(a.skip(1), b.skip(1));
    }
}

/// From a directory to the directory that has no component left, the way
/// climbs once for every component of the start.
pub proof fn lemma_diff_to_nothing(from: Seq<Seq<char>>, acc: Seq<Seq<char>>)
    ensures
        diff_spec(Seq::empty(), from, acc) == Some(acc + parents(from.len())),
    decreases from.len(),
{
    if from.len() > 0 {
        lemma_diff_to_nothing(from.skip(1), acc.push(parent_dir()));
    }
}

/// The way between two directories, where the start holds no `.` and no
/// `..`: one `..` for each directory of the start behind what the two have
/// in common at their front, then what is left of the destination.
pub proof fn lemma_diff_of_normal_paths(to: Seq<Seq<char>>, from: Seq<Seq<char>>)
    requires
        all_normal(from),
    ensures
        common_prefix(to, from) <= from.len(),
        common_prefix(to, from) <= to.len(),
        diff_spec(to, from, Seq::empty()) == Some(
            parents((from.len() - common_prefix(to, from)) as nat) + to.skip(
                common_prefix(to, from) as int,
            ),
        ),
    decreases from.len(),
{
    let none = Seq::<Seq<char>>::empty();
    lemma_common_prefix_bound(to, from);
    if from.len() > 0 && to.len() == 0 {
        lemma_diff_to_nothing(from, none);
        assert(to =~= none);
    } else if from.len() > 0 && to[0] == from[0] {
        lemma_diff_of_normal_paths(to.skip(1), from.skip(1));
    }
}

} // verus!
