//! Paths as byte strings.
//!
//! Two spellings are the same path where they have the same parts and both or
//! neither begin at the root: repeated and trailing slashes do not count, nor
//! does a `.`, unless a relative path begins with it.

use vstd::prelude::*;
use vstd::slice::slice_to_vec;

verus! {

/// The byte between the parts of a path.
pub const SLASH: u8 = 0x2f;

/// The byte that alone names the directory itself.
pub const DOT: u8 = 0x2e;

/// The longest stretches without a slash, in order.
pub open spec fn path_runs(p: Seq<u8>) -> Seq<Seq<u8>>
    decreases p.len(),
{
    if p.len() == 0 {
        Seq::empty()
    } else {
        let before = path_runs(p.drop_last());
        if p.last() == SLASH {
            before
        } else if p.len() == 1 || p[p.len() - 2] == SLASH {
            before.push(seq![p.last()])
        } else {
            before.drop_last().push(before.last().push(p.last()))
        }
    }
}

/// The path begins at the root.
pub open spec fn is_rooted(p: Seq<u8>) -> bool {
    p.len() > 0 && p[0] == SLASH
}

/// The first `n` runs without those that name the directory itself; a relative
/// path may begin with one.
pub open spec fn kept_runs(runs: Seq<Seq<u8>>, n: int, rooted: bool) -> Seq<Seq<u8>>
    decreases n,
{
    if n <= 0 {
        Seq::empty()
    } else if runs[n - 1] == seq![DOT] && (rooted || n > 1) {
        kept_runs(runs, n - 1, rooted)
    } else {
        kept_runs(runs, n - 1, rooted).push(runs[n - 1])
    }
}

/// The parts of a path.
pub open spec fn path_parts(p: Seq<u8>) -> Seq<Seq<u8>> {
    kept_runs(path_runs(p), path_runs(p).len() as int, is_rooted(p))
}

/// Parts with a slash between each two.
pub open spec fn joined_parts(parts: Seq<Seq<u8>>) -> Seq<u8>
    decreases parts.len(),
{
    if parts.len() == 0 {
        Seq::empty()
    } else if parts.len() == 1 {
        parts[0]
    } else {
        joined_parts(parts.drop_last()).push(SLASH) + parts.last()
    }
}

/// What stands in front of the parts.
pub open spec fn root_text(rooted: bool) -> Seq<u8> {
    if rooted {
        seq![SLASH]
    } else {
        Seq::empty()
    }
}

/// The shortest spelling of a path.
pub open spec fn path_key(p: Seq<u8>) -> Seq<u8> {
    root_text(is_rooted(p)) + joined_parts(path_parts(p))
}

/// What the byte strings hold.
pub open spec fn byte_strings(v: Seq<Vec<u8>>) -> Seq<Seq<u8>> {
    Seq::new(v.len(), |i: int| v[i]@)
}

fn split_path(path: &[u8]) -> (v: Vec<Vec<u8>>)
    ensures
        byte_strings(v@) == path_runs(path@),
{
    let mut v: Vec<Vec<u8>> = Vec::new();
    let mut i: usize = 0;
    assert(path@.take(0) =~= Seq::empty());
    assert(byte_strings(v@) =~= Seq::empty());
    while i < path.len()
        invariant
            i <= path@.len(),
            byte_strings(v@) == path_runs(path@.take(i as int)),
            i > 0 && path@[i - 1] != SLASH ==> v@.len() > 0,
        decreases path@.len() - i,
    {
        let c: u8 = path[i];
        let ghost now = path@.take(i + 1);
        let ghost before = byte_strings(v@);
        proof {
            assert(now.drop_last() =~= path@.take(i as int));
            assert(now.last() == c);
        }
        if c != SLASH {
            if i == 0 || path[i - 1] == SLASH {
                let mut w: Vec<u8> = Vec::new();
                w.push(c);
                assert(w@ =~= seq![c]);
                v.push(w);
                assert(byte_strings(v@) =~= before.push(seq![c]));
            } else {
                let ghost all = v@;
                match v.pop() {
                    Some(mut w) => {
                        assert(w@ == before.last());
                        w.push(c);
                        let ghost longer = w@;
                        v.push(w);
                        assert(byte_strings(v@) =~= before.drop_last().push(longer));
                    },
                    None => {},
                }
            }
        }
        i = i + 1;
    }
    assert(path@.take(i as int) =~= path@);
    v
}

fn is_dot(w: &Vec<u8>) -> (r: bool)
    ensures
        r == (w@ == seq![DOT]),
{
    let r = w.len() == 1 && w[0] == DOT;
    assert(r ==> w@ =~= seq![DOT]);
    r
}

/// The shortest spelling of a path.
pub fn tidy_path(path: &[u8]) -> (key: Vec<u8>)
    ensures
        key@ == path_key(path@),
{
    let runs = split_path(path);
    let rooted = path.len() > 0 && path[0] == SLASH;
    let ghost all = path_runs(path@);
    let mut key: Vec<u8> = Vec::new();
    if rooted {
        key.push(SLASH);
    }
    let mut count: usize = 0;
    let mut i: usize = 0;
    assert(key@ =~= root_text(rooted) + joined_parts(Seq::empty()));
    while i < runs.len()
        invariant
            all == path_runs(path@),
            byte_strings(runs@) == all,
            rooted == is_rooted(path@),
            i <= runs@.len(),
            count == kept_runs(all, i as int, rooted).len(),
            count <= i,
            key@ == root_text(rooted) + joined_parts(kept_runs(all, i as int, rooted)),
        decreases runs@.len() - i,
    {
        let ghost parts = kept_runs(all, i as int, rooted);
        assert(all[i as int] == runs@[i as int]@);
        if !(is_dot(&runs[i]) && (rooted || i > 0)) {
            let ghost more = parts.push(all[i as int]);
            assert(more.drop_last() =~= parts);
            if count > 0 {
                key.push(SLASH);
            }
            key.extend_from_slice(runs[i].as_slice());
            assert(key@ =~= root_text(rooted) + joined_parts(more));
            count = count + 1;
        }
        i = i + 1;
    }
    key
}

/// The path of a name in a directory; a name that begins at the root is a path
/// of its own.
pub open spec fn path_below(dir: Seq<u8>, name: Seq<u8>) -> Seq<u8> {
    if is_rooted(name) {
        name
    } else if dir.len() == 0 || dir.last() == SLASH {
        dir + name
    } else {
        dir.push(SLASH) + name
    }
}

pub fn child_path(dir: &[u8], name: &[u8]) -> (p: Vec<u8>)
    ensures
        p@ == path_below(dir@, name@),
{
    if name.len() > 0 && name[0] == SLASH {
        return slice_to_vec(name);
    }
    let mut p: Vec<u8> = slice_to_vec(dir);
    if dir.len() > 0 && dir[dir.len() - 1] != SLASH {
        p.push(SLASH);
    }
    p.extend_from_slice(name);
    assert(p@ =~= path_below(dir@, name@));
    p
}

/// A part is not empty and holds no slash.
pub open spec fn is_part(w: Seq<u8>) -> bool {
    w.len() > 0 && !w.contains(SLASH)
}

proof fn lemma_runs_are_parts(p: Seq<u8>)
    ensures
        forall|i: int| 0 <= i < path_runs(p).len() ==> is_part(#[trigger] path_runs(p)[i]),
        p.len() > 0 && p.last() != SLASH ==> path_runs(p).len() > 0,
    decreases p.len(),
{
    if p.len() > 0 {
        let front = p.drop_last();
        let before = path_runs(front);
        lemma_runs_are_parts(front);
        let c = p.last();
        if c != SLASH {
            if p.len() == 1 || p[p.len() - 2] == SLASH {
                assert(!seq![c].contains(SLASH));
            } else {
                assert(front.last() == p[p.len() - 2]);
                let w = before.last();
                assert(is_part(before[before.len() - 1]));
                assert forall|x: u8| w.push(c).contains(x) implies x == c || w.contains(x) by {
                    let k = choose|k: int| 0 <= k < w.push(c).len() && w.push(c)[k] == x;
                    if k < w.len() {
                        assert(w[k] == x);
                    }
                }
            }
        }
    }
}

proof fn lemma_parts_are_parts(runs: Seq<Seq<u8>>, n: int, rooted: bool)
    requires
        0 <= n <= runs.len(),
        forall|i: int| 0 <= i < runs.len() ==> is_part(#[trigger] runs[i]),
    ensures
        forall|i: int|
            0 <= i < kept_runs(runs, n, rooted).len() ==> is_part(
                #[trigger] kept_runs(runs, n, rooted)[i],
            ),
    decreases n,
{
    if n > 0 {
        lemma_parts_are_parts(runs, n - 1, rooted);
        assert(is_part(runs[n - 1]));
        let before = kept_runs(runs, n - 1, rooted);
        let now = kept_runs(runs, n, rooted);
        assert forall|i: int| 0 <= i < now.len() implies is_part(#[trigger] now[i]) by {
            if i < before.len() {
                assert(now[i] == before[i]);
            }
        }
    }
}

/// A part behind a path that ends in a slash, or stands alone, is one more run.
proof fn lemma_runs_push(x: Seq<u8>, w: Seq<u8>)
    requires
        x.len() == 0 || x.last() == SLASH,
        is_part(w),
    ensures
        path_runs(x + w) == path_runs(x).push(w),
    decreases w.len(),
{
    let s = x + w;
    let c = w.last();
    assert(w[w.len() - 1] == c);
    assert(s.last() == c);
    if w.len() == 1 {
        assert(s.drop_last() =~= x);
        assert(w =~= seq![c]);
    } else {
        let front = w.drop_last();
        assert(is_part(front)) by {
            if front.contains(SLASH) {
                let k = choose|k: int| 0 <= k < front.len() && front[k] == SLASH;
                assert(w[k] == SLASH);
            }
        }
        lemma_runs_push(x, front);
        assert(s.drop_last() =~= x + front);
        assert(s[s.len() - 2] == w[w.len() - 2]);
        assert(w.contains(w[w.len() - 2]));
        let before = path_runs(x).push(front);
        assert(before.drop_last() =~= path_runs(x));
        assert(before.last().push(c) =~= w);
    }
}

/// The runs of joined parts are the parts.
proof fn lemma_runs_of_joined(parts: Seq<Seq<u8>>, rooted: bool)
    requires
        forall|i: int| 0 <= i < parts.len() ==> is_part(#[trigger] parts[i]),
    ensures
        path_runs(root_text(rooted) + joined_parts(parts)) == parts,
        !rooted && parts.len() > 0 ==> joined_parts(parts).len() > 0 && joined_parts(parts)[0]
            != SLASH,
    decreases parts.len(),
{
    let root = root_text(rooted);
    assert(path_runs(Seq::<u8>::empty()) =~= Seq::empty());
    assert(path_runs(root) =~= Seq::empty()) by {
        if rooted {
            assert(root.drop_last() =~= Seq::empty());
        }
    }
    if parts.len() == 0 {
        assert(root + joined_parts(parts) =~= root);
    } else if parts.len() == 1 {
        let w = parts[0];
        assert(is_part(w));
        lemma_runs_push(root, w);
        assert(Seq::empty().push(w) =~= parts);
        assert(w.contains(w[0]));
    } else {
        let front = parts.drop_last();
        let w = parts.last();
        assert forall|i: int| 0 <= i < front.len() implies is_part(#[trigger] front[i]) by {
            assert(is_part(parts[i]));
        }
        assert(is_part(parts[parts.len() - 1]));
        lemma_runs_of_joined(front, rooted);
        let x = (root + joined_parts(front)).push(SLASH);
        assert(x.drop_last() =~= root + joined_parts(front));
        assert(path_runs(x) == front);
        lemma_runs_push(x, w);
        assert(root + joined_parts(parts) =~= x + w);
        assert(front.push(w) =~= parts);
        if !rooted {
            assert(joined_parts(parts)[0] == joined_parts(front)[0]);
        }
    }
}

/// Two spellings have the same key exactly if they have the same parts and both
/// or neither begin at the root.
pub proof fn law_same_key_is_same_path(p: Seq<u8>, q: Seq<u8>)
    ensures
        path_key(p) == path_key(q) <==> is_rooted(p) == is_rooted(q) && path_parts(p)
            == path_parts(q),
{
    lemma_key(p);
    lemma_key(q);
}

/// A slash parts the runs before it from those behind it, and a part alone is
/// one run.
pub proof fn law_path_runs(a: Seq<u8>, w: Seq<u8>)
    requires
        is_part(w),
    ensures
        path_runs(a.push(SLASH) + w) == path_runs(a).push(w),
        path_runs(a.push(SLASH)) == path_runs(a),
        path_runs(w) == seq![w],
        path_runs(Seq::<u8>::empty()) == Seq::<Seq<u8>>::empty(),
{
    assert(a.push(SLASH).drop_last() =~= a);
    lemma_runs_push(a.push(SLASH), w);
    lemma_runs_push(Seq::empty(), w);
    assert(Seq::<u8>::empty() + w =~= w);
    assert(path_runs(Seq::<u8>::empty()) =~= Seq::empty());
    assert(Seq::<Seq<u8>>::empty().push(w) =~= seq![w]);
}

proof fn lemma_kept_prefix(runs: Seq<Seq<u8>>, w: Seq<u8>, n: int, rooted: bool)
    requires
        0 <= n <= runs.len(),
    ensures
        kept_runs(runs.push(w), n, rooted) == kept_runs(runs, n, rooted),
    decreases n,
{
    if n > 0 {
        lemma_kept_prefix(runs, w, n - 1, rooted);
        assert(runs.push(w)[n - 1] == runs[n - 1]);
    }
}

/// A name behind a directory is one more part; a `.` or nothing behind it is
/// none.
pub proof fn law_parts_below(dir: Seq<u8>, w: Seq<u8>)
    requires
        dir.len() > 0,
        is_part(w),
    ensures
        w != seq![DOT] ==> path_parts(dir.push(SLASH) + w) == path_parts(dir).push(w),
        w == seq![DOT] && path_runs(dir).len() > 0 ==> path_parts(dir.push(SLASH) + w)
            == path_parts(dir),
        path_parts(dir.push(SLASH)) == path_parts(dir),
        is_rooted(dir.push(SLASH) + w) == is_rooted(dir),
{
    law_path_runs(dir, w);
    let runs = path_runs(dir);
    lemma_kept_prefix(runs, w, runs.len() as int, is_rooted(dir));
    assert(runs.push(w)[runs.len() as int] == w);
    assert((dir.push(SLASH) + w)[0] == dir[0]);
    assert(dir.push(SLASH)[0] == dir[0]);
}

/// The path of a name in a directory has the parts of the directory and the
/// name.
pub proof fn law_child_path(dir: Seq<u8>, name: Seq<u8>)
    requires
        dir.len() > 0,
        is_part(name),
        name != seq![DOT],
    ensures
        path_parts(path_below(dir, name)) == path_parts(dir).push(name),
        is_rooted(path_below(dir, name)) == is_rooted(dir),
{
    assert(name.contains(name[0]));
    if dir.last() == SLASH {
        let front = dir.drop_last();
        assert(front.push(SLASH) =~= dir);
        if front.len() > 0 {
            law_parts_below(front, name);
        } else {
            law_path_runs(front, name);
            assert(front =~= Seq::empty());
            assert((dir + name)[0] == SLASH);
            assert(path_runs(dir + name) =~= seq![name]);
            assert(path_runs(dir) =~= Seq::empty());
            assert(kept_runs(seq![name], 0, true) =~= Seq::empty());
            assert(seq![name][0] == name);
            assert(path_parts(dir + name) =~= seq![name]);
            assert(path_parts(dir).push(name) =~= seq![name]);
        }
    } else {
        law_parts_below(dir, name);
    }
}

proof fn lemma_key(p: Seq<u8>)
    ensures
        path_runs(path_key(p)) == path_parts(p),
        is_rooted(path_key(p)) == is_rooted(p),
{
    lemma_runs_are_parts(p);
    lemma_parts_are_parts(path_runs(p), path_runs(p).len() as int, is_rooted(p));
    lemma_runs_of_joined(path_parts(p), is_rooted(p));
}

/// A name that begins at the root stands for itself, in whatever directory it is
/// looked up.
pub proof fn law_rooted_name(dir: Seq<u8>, other: Seq<u8>, name: Seq<u8>)
    requires
        is_rooted(name),
    ensures
        path_below(dir, name) == path_below(other, name),
        path_parts(path_below(dir, name)) == path_parts(name),
{
}

} // verus!
