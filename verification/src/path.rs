//! Paths of files, as the bytes that the system knows them by.

use vstd::prelude::*;
use vstd::utf8;

verus! {

/// The byte that parts the names in a path.
pub const SLASH: u8 = 0x2f;

/// The bytes of a text in UTF-8.
pub open spec fn bytes(s: Seq<char>) -> Seq<u8> {
    utf8::encode_utf8(s)
}

/// `name` under the directory `base`; a name that starts with a slash stands alone.
pub open spec fn joined(base: Seq<u8>, name: Seq<u8>) -> Seq<u8> {
    if name.len() > 0 && name[0] == SLASH {
        name
    } else if base.len() == 0 || base.last() == SLASH {
        base + name
    } else {
        base.push(SLASH) + name
    }
}

/// The file `name` under the directory `base`.
pub open spec fn under(base: Seq<u8>, name: Seq<char>) -> Seq<u8> {
    joined(base, bytes(name))
}

/// `name` under the directory `base`; a name that starts with a slash stands alone.
pub fn join(base: &[u8], name: &[u8]) -> (r: Vec<u8>)
    ensures
        r@ == joined(base@, name@),
{
    let mut out: Vec<u8> = Vec::new();
    let alone: bool = name.len() > 0 && name[0] == SLASH;
    if !alone {
        out.extend_from_slice(base);
        if base.len() > 0 && base[base.len() - 1] != SLASH {
            out.push(SLASH);
        }
    }
    let ghost front = out@;
    out.extend_from_slice(name);
    assert(out@ =~= front + name@);
    assert(out@ =~= joined(base@, name@));
    out
}

/// The file `name` under the directory `base`.
pub fn join_name(base: &[u8], name: &str) -> (r: Vec<u8>)
    ensures
        r@ == under(base@, name@),
{
    join(base, name.as_bytes())
}

/// Whether two paths hold the same bytes.
pub fn same(a: &[u8], b: &[u8]) -> (r: bool)
    ensures
        r == (a@ == b@),
{
    if a.len() != b.len() {
        return false;
    }
    let mut i: usize = 0;
    while i < a.len()
        invariant
            i <= a@.len(),
            a@.len() == b@.len(),
            forall|k: int| 0 <= k < i ==> a@[k] == b@[k],
        decreases a@.len() - i,
    {
        if a[i] != b[i] {
            return false;
        }
        i = i + 1;
    }
    assert(a@ =~= b@);
    true
}

/// The bytes of a text.
pub fn bytes_of(s: &str) -> (r: Vec<u8>)
    ensures
        r@ == bytes(s@),
{
    let mut out: Vec<u8> = Vec::new();
    out.extend_from_slice(s.as_bytes());
    assert(out@ =~= bytes(s@));
    out
}

/// Where the first slash stands; the length where there is none.
pub open spec fn first_slash(s: Seq<u8>) -> nat
    decreases s.len(),
{
    if s.len() == 0 || s[0] == SLASH {
        0
    } else {
        1 + first_slash(s.drop_first())
    }
}

proof fn lemma_first_slash(s: Seq<u8>, at: nat)
    requires
        at <= s.len(),
        at < s.len() ==> s[at as int] == SLASH,
        forall|k: int| 0 <= k < at ==> s[k] != SLASH,
    ensures
        first_slash(s) == at,
    decreases s.len(),
{
    if at > 0 {
        assert forall|k: int| 0 <= k < at - 1 implies s.drop_first()[k] != SLASH by {
            assert(s.drop_first()[k] == s[k + 1]);
        }
        lemma_first_slash(s.drop_first(), (at - 1) as nat);
    }
}

/// Whether `part` is the name for the directory itself.
pub open spec fn is_dot(part: Seq<u8>) -> bool {
    part == seq![0x2eu8]
}

/// The names in `s`, without those that lead nowhere: empty ones, and a dot unless
/// it is kept.
pub open spec fn names_in(s: Seq<u8>, keep_dot: bool) -> Seq<Seq<u8>>
    decreases s.len(),
{
    let end = first_slash(s);
    let part = s.take(end as int);
    let own = if part.len() == 0 || (is_dot(part) && !keep_dot) {
        seq![]
    } else {
        seq![part]
    };
    if end < s.len() {
        own + names_in(s.skip(end as int + 1), false)
    } else {
        own
    }
}

/// Whether a path starts at the root.
pub open spec fn absolute(path: Seq<u8>) -> bool {
    path.len() > 0 && path[0] == SLASH
}

/// The names in a path. A dot counts at the start of a path that does not begin at
/// the root; slashes that are repeated or at the end do not count.
pub open spec fn names(path: Seq<u8>) -> Seq<Seq<u8>> {
    names_in(path, !absolute(path))
}

/// Names by their bytes.
pub open spec fn name_views(v: Seq<Vec<u8>>) -> Seq<Seq<u8>> {
    Seq::new(v.len(), |i: int| v[i]@)
}

/// Whether a path starts at the root.
fn is_absolute(path: &[u8]) -> (r: bool)
    ensures
        r == absolute(path@),
{
    path.len() > 0 && path[0] == SLASH
}

/// The names in a path.
fn split(path: &[u8]) -> (r: Vec<Vec<u8>>)
    ensures
        name_views(r@) == names(path@),
{
    let mut out: Vec<Vec<u8>> = Vec::new();
    let mut from: usize = 0;
    let mut keep_dot: bool = !is_absolute(path);
    assert(path@.skip(0) =~= path@);
    assert(name_views(out@) + names(path@) =~= names(path@));
    loop
        invariant
            from <= path@.len(),
            names(path@) == name_views(out@) + names_in(path@.skip(from as int), keep_dot),
        decreases path@.len() - from,
    {
        let ghost rest = path@.skip(from as int);
        let mut part: Vec<u8> = Vec::new();
        let mut at: usize = from;
        while at < path.len() && path[at] != SLASH
            invariant
                from <= at <= path@.len(),
                rest == path@.skip(from as int),
                part@ =~= rest.take(at - from),
                forall|k: int| 0 <= k < at - from ==> rest[k] != SLASH,
            decreases path@.len() - at,
        {
            part.push(path[at]);
            at = at + 1;
        }
        proof {
            lemma_first_slash(rest, (at - from) as nat);
        }
        let dot: bool = part.len() == 1 && part[0] == 0x2e;
        assert(dot == is_dot(part@)) by {
            if dot {
                assert(part@ =~= seq![0x2eu8]);
            }
        }
        let ghost before = name_views(out@);
        if part.len() > 0 && (!dot || keep_dot) {
            out.push(part);
            assert(name_views(out@) =~= before + seq![part@]);
        } else {
            assert(name_views(out@) =~= before + Seq::<Seq<u8>>::empty());
        }
        if at >= path.len() {
            assert(name_views(out@) =~= names(path@));
            return out;
        }
        assert(rest.skip(at - from + 1) =~= path@.skip(at + 1));
        keep_dot = false;
        from = at + 1;
        assert(names(path@) =~= name_views(out@) + names_in(path@.skip(from as int), keep_dot));
    }
}

/// Whether two paths lead the same way: both from the root or neither, by the same
/// names.
pub open spec fn alike(a: Seq<u8>, b: Seq<u8>) -> bool {
    absolute(a) == absolute(b) && names(a) == names(b)
}

/// Whether `a` and `b` hold the same names, but for the last `left_out` of `a`.
fn same_names(a: &Vec<Vec<u8>>, left_out: usize, b: &Vec<Vec<u8>>) -> (r: bool)
    requires
        left_out <= a@.len(),
    ensures
        r == (name_views(a@).take(a@.len() - left_out) == name_views(b@)),
{
    let n: usize = a.len() - left_out;
    assert(name_views(a@).take(n as int).len() == n && name_views(b@).len() == b@.len());
    if n != b.len() {
        return false;
    }
    let mut i: usize = 0;
    while i < n
        invariant
            i <= n == b@.len(),
            n == a@.len() - left_out,
            forall|k: int| 0 <= k < i ==> name_views(a@)[k] == name_views(b@)[k],
        decreases n - i,
    {
        if !same(a[i].as_slice(), b[i].as_slice()) {
            assert(name_views(a@).take(n as int)[i as int] != name_views(b@)[i as int]);
            return false;
        }
        i = i + 1;
    }
    assert(name_views(a@).take(n as int) =~= name_views(b@));
    true
}

/// Whether two paths lead the same way.
pub fn leads_to(a: &[u8], b: &[u8]) -> (r: bool)
    ensures
        r == alike(a@, b@),
{
    let first: Vec<Vec<u8>> = split(a);
    let second: Vec<Vec<u8>> = split(b);
    assert(name_views(first@).take(first@.len() as int) =~= name_views(first@));
    is_absolute(a) == is_absolute(b) && same_names(&first, 0, &second)
}

/// Whether `path` names something directly in the directory `dir`.
pub open spec fn inside(path: Seq<u8>, dir: Seq<u8>) -> bool {
    &&& names(path).len() > 0
    &&& absolute(path) == absolute(dir)
    &&& names(path).drop_last() == names(dir)
}

/// Whether `path` names something directly in the directory `dir`.
pub fn lies_in(path: &[u8], dir: &[u8]) -> (r: bool)
    ensures
        r == inside(path@, dir@),
{
    let first: Vec<Vec<u8>> = split(path);
    let second: Vec<Vec<u8>> = split(dir);
    if first.len() == 0 {
        return false;
    }
    assert(name_views(first@).take(first@.len() - 1) =~= name_views(first@).drop_last());
    is_absolute(path) == is_absolute(dir) && same_names(&first, 1, &second)
}

/// Whether something is at a path, as the system said.
#[derive(Debug)]
pub struct Looked {
    /// The path that was looked at.
    pub path: Vec<u8>,
    /// Whether something was there.
    pub there: bool,
}

/// A plain name is one that is not empty, has no slash and is no dot.
pub open spec fn plain(name: Seq<u8>) -> bool {
    &&& name.len() > 0
    &&& !is_dot(name)
    &&& forall|i: int| 0 <= i < name.len() ==> #[trigger] name[i] != SLASH
}

/// A plain name under a directory is the directory's path, a slash unless one is there, and
/// the name.
pub proof fn law_names_are_put_behind_directories(base: Seq<u8>, name: Seq<u8>)
    requires
        plain(name),
    ensures
        base.len() > 0 && base.last() != 0x2f ==> joined(base, name) == base + seq![0x2fu8] + name,
        base.len() > 0 && base.last() == 0x2f ==> joined(base, name) == base + name,
        base.len() == 0 ==> joined(base, name) == name,
        base.len() > 0 ==> absolute(joined(base, name)) == absolute(base),
{
    assert(name[0] != SLASH);
    assert(base.push(SLASH) + name =~= base + seq![0x2fu8] + name);
    if base.len() == 0 {
        assert(base + name =~= name);
    }
}

proof fn lemma_no_slash(s: Seq<u8>)
    requires
        forall|i: int| 0 <= i < s.len() ==> #[trigger] s[i] != SLASH,
    ensures
        first_slash(s) == s.len(),
{
    lemma_first_slash(s, s.len());
}

proof fn lemma_first_slash_found(s: Seq<u8>)
    ensures
        first_slash(s) <= s.len(),
        first_slash(s) < s.len() ==> s[first_slash(s) as int] == SLASH,
        forall|k: int| 0 <= k < first_slash(s) ==> #[trigger] s[k] != SLASH,
    decreases s.len(),
{
    if s.len() > 0 && s[0] != SLASH {
        let rest = s.drop_first();
        lemma_first_slash_found(rest);
        assert forall|k: int| 0 <= k < first_slash(s) implies #[trigger] s[k] != SLASH by {
            if k > 0 {
                assert(rest[k - 1] == s[k]);
            }
        }
    }
}

/// Behind a slash, or at the very start, a plain name is one more name.
proof fn lemma_names_behind_slash(front: Seq<u8>, name: Seq<u8>, keep_dot: bool)
    requires
        plain(name),
    ensures
        names_in(front + seq![SLASH] + name, keep_dot) == names_in(front, keep_dot).push(name),
    decreases front.len(),
{
    let s = front + seq![SLASH] + name;
    lemma_first_slash_found(front);
    let end = first_slash(front);
    if end < front.len() {
        assert forall|k: int| 0 <= k < end implies s[k] != SLASH by {
            assert(s[k] == front[k]);
        }
        assert(s[end as int] == front[end as int]);
        lemma_first_slash(s, end);
        let rest = front.skip(end as int + 1);
        lemma_names_behind_slash(rest, name, false);
        assert(s.take(end as int) =~= front.take(end as int));
        assert(s.skip(end as int + 1) =~= rest + seq![SLASH] + name);
        let part = front.take(end as int);
        let own = if part.len() == 0 || (is_dot(part) && !keep_dot) {
            seq![]
        } else {
            seq![part]
        };
        assert(own + names_in(rest, false).push(name) =~= (own + names_in(rest, false)).push(name));
    } else {
        assert forall|k: int| 0 <= k < end implies s[k] != SLASH by {
            assert(s[k] == front[k]);
        }
        assert(s[end as int] == SLASH);
        lemma_first_slash(s, end);
        assert(s.take(end as int) =~= front);
        assert(front.take(end as int) =~= front);
        assert(s.skip(end as int + 1) =~= name);
        lemma_no_slash(name);
        assert(name.take(name.len() as int) =~= name);
        assert(names_in(name, false) =~= seq![name]);
        assert(names_in(s, keep_dot) =~= names_in(front, keep_dot).push(name));
    }
}

/// A slash at the end of a path is no name.
proof fn lemma_names_before_slash(front: Seq<u8>, keep_dot: bool)
    ensures
        names_in(front.push(SLASH), keep_dot) == names_in(front, keep_dot),
    decreases front.len(),
{
    let s = front.push(SLASH);
    lemma_first_slash_found(front);
    let end = first_slash(front);
    assert forall|k: int| 0 <= k < end implies s[k] != SLASH by {
        assert(s[k] == front[k]);
    }
    lemma_first_slash(s, end);
    assert(s.take(end as int) =~= front.take(end as int));
    if end < front.len() {
        let rest = front.skip(end as int + 1);
        lemma_names_before_slash(rest, false);
        assert(s.skip(end as int + 1) =~= rest.push(SLASH));
    } else {
        assert(s.skip(end as int + 1) =~= seq![]);
        assert(names_in(seq![], false) =~= seq![]);
        assert(names_in(s, keep_dot) =~= names_in(front, keep_dot));
    }
}

/// A file by a plain name in a directory that starts at the root lies in that directory,
/// the directory does not lie in itself, and nothing that lies further down does.
pub proof fn law_files_lie_in_their_directory(dir: Seq<u8>, name: Seq<u8>, deeper: Seq<u8>)
    requires
        absolute(dir),
        plain(name),
        plain(deeper),
    ensures
        inside(joined(dir, name), dir),
        !inside(dir, dir),
        !inside(joined(joined(dir, name), deeper), dir),
{
    lemma_joined_names(dir, name);
    let file = joined(dir, name);
    lemma_joined_names(file, deeper);
    assert(names(file).drop_last() =~= names(dir));
    if names(dir).len() > 0 {
        assert(names(dir).drop_last().len() < names(dir).len());
    }
    assert(names(joined(file, deeper)).drop_last().len() == names(dir).len() + 1);
}

proof fn lemma_joined_names(dir: Seq<u8>, name: Seq<u8>)
    requires
        absolute(dir),
        plain(name),
    ensures
        names(joined(dir, name)) == names(dir).push(name),
        absolute(joined(dir, name)),
{
    law_names_are_put_behind_directories(dir, name);
    assert(name[0] != SLASH);
    if dir.last() == SLASH {
        let front = dir.drop_last();
        assert(dir =~= front.push(SLASH));
        assert(dir + name =~= front + seq![SLASH] + name);
        lemma_names_behind_slash(front, name, false);
        lemma_names_before_slash(front, false);
    } else {
        assert(dir.push(SLASH) + name =~= dir + seq![SLASH] + name);
        lemma_names_behind_slash(dir, name, false);
    }
}

} // verus!
