//! Byte-string paths with `/` separators: prefix stripping, joining, and the
//! parent-directory computation used when a destination directory must be
//! created before a copy.

use vstd::prelude::*;

verus! {

/// Byte value of the path separator `/`.
pub open spec fn sep() -> u8 {
    47
}

/// The path obtained by joining a relative path onto a root directory.
pub open spec fn joined(root: Seq<u8>, rel: Seq<u8>) -> Seq<u8> {
    root + seq![sep()] + rel
}

/// Whether `path` lies strictly below the directory `root`: it starts with
/// `root`, a separator follows, and a non-empty relative part remains.
pub open spec fn is_under(path: Seq<u8>, root: Seq<u8>) -> bool {
    &&& path.len() > root.len() + 1
    &&& path.subrange(0, root.len() as int) == root
    &&& path[root.len() as int] == sep()
}

/// The part of `path` below `root`, meaningful when `is_under(path, root)`.
pub open spec fn rel_of(path: Seq<u8>, root: Seq<u8>) -> Seq<u8>
    recommends
        is_under(path, root),
{
    path.subrange(root.len() as int + 1, path.len() as int)
}

/// No separator occurs in `path` at position `i` or later.
pub open spec fn no_sep_from(path: Seq<u8>, i: int) -> bool {
    forall|j: int| i <= j < path.len() ==> path[j] != sep()
}

/// Strips the root directory from a path, returning the relative part, or
/// `None` when the path does not lie below the root.
pub fn strip_prefix(path: &Vec<u8>, root: &Vec<u8>) -> (r: Option<Vec<u8>>)
    ensures
        r is Some <==> is_under(path@, root@),
        r matches Some(rel) ==> rel@ == rel_of(path@, root@),
{
    if path.len() <= root.len() {
        return None;
    }
    if path.len() - root.len() < 2 {
        return None;
    }
    let mut i: usize = 0;
    while i < root.len()
        invariant
            i <= root.len(),
            root.len() < path.len(),
            forall|j: int| 0 <= j < i ==> path@[j] == root@[j],
        decreases root.len() - i,
    {
        if path[i] != root[i] {
            assert(path@.subrange(0, root@.len() as int)[i as int] != root@[i as int]);
            return None;
        }
        i += 1;
    }
    assert(path@.subrange(0, root@.len() as int) =~= root@);
    if path[root.len()] != 47 {
        return None;
    }
    let mut rel: Vec<u8> = Vec::new();
    let mut k: usize = root.len() + 1;
    while k < path.len()
        invariant
            root.len() + 1 <= k <= path.len(),
            rel@ =~= path@.subrange(root@.len() as int + 1, k as int),
        decreases path.len() - k,
    {
        rel.push(path[k]);
        k += 1;
    }
    Some(rel)
}

/// Joins a relative path onto a root directory with a single separator.
pub fn join(root: &Vec<u8>, rel: &Vec<u8>) -> (r: Vec<u8>)
    ensures
        r@ == joined(root@, rel@),
{
    let mut r: Vec<u8> = Vec::new();
    let mut i: usize = 0;
    while i < root.len()
        invariant
            i <= root.len(),
            r@ =~= root@.subrange(0, i as int),
        decreases root.len() - i,
    {
        r.push(root[i]);
        i += 1;
    }
    r.push(47);
    let mut k: usize = 0;
    while k < rel.len()
        invariant
            k <= rel.len(),
            r@ =~= root@ + seq![sep()] + rel@.subrange(0, k as int),
        decreases rel.len() - k,
    {
        r.push(rel[k]);
        k += 1;
    }
    proof {
        assert(r@ =~= joined(root@, rel@));
    }
    r
}

/// Returns the directory part of a path: everything before the last
/// separator, or the empty path when no separator occurs.
pub fn parent_dir(path: &Vec<u8>) -> (r: Vec<u8>)
    ensures
        no_sep_from(path@, 0) ==> r@ == Seq::<u8>::empty(),
        !no_sep_from(path@, 0) ==> {
            &&& r@.len() < path@.len()
            &&& path@[r@.len() as int] == sep()
            &&& r@ == path@.subrange(0, r@.len() as int)
            &&& no_sep_from(path@, r@.len() as int + 1)
        },
{
    let mut i: usize = path.len();
    while i > 0
        invariant
            i <= path.len(),
            no_sep_from(path@, i as int),
        decreases i,
    {
        if path[i - 1] == 47 {
            let mut r: Vec<u8> = Vec::new();
            let mut k: usize = 0;
            while k < i - 1
                invariant
                    k <= i - 1,
                    i <= path.len(),
                    r@ =~= path@.subrange(0, k as int),
                decreases i - 1 - k,
            {
                r.push(path[k]);
                k += 1;
            }
            return r;
        }
        i -= 1;
    }
    let r: Vec<u8> = Vec::new();
    proof {
        assert(r@ =~= Seq::<u8>::empty());
    }
    r
}

/// Rebases a file path from a source root onto a destination root: the
/// destination is the same relative path joined onto the destination root.
/// Returns `None` exactly when the path does not lie below the source root.
pub fn dest_path(path: &Vec<u8>, src_root: &Vec<u8>, dst_root: &Vec<u8>) -> (r: Option<Vec<u8>>)
    ensures
        r is Some <==> is_under(path@, src_root@),
        r matches Some(d) ==> d@ == joined(dst_root@, rel_of(path@, src_root@)),
{
    match strip_prefix(path, src_root) {
        Some(rel) => Some(join(dst_root, &rel)),
        None => None,
    }
}

/// Path fidelity: a file at `joined(work, rel)` rebases to exactly
/// `joined(backup, rel)` — stripping the work root from a joined path
/// recovers the relative part unchanged, so `dest_path` maps
/// `work/rel` to `backup/rel` and nothing else.
pub proof fn lemma_path_fidelity(work: Seq<u8>, backup: Seq<u8>, rel: Seq<u8>)
    requires
        rel.len() > 0,
    ensures
        is_under(joined(work, rel), work),
        rel_of(joined(work, rel), work) == rel,
        joined(backup, rel_of(joined(work, rel), work)) == joined(backup, rel),
{
    let p = joined(work, rel);
    assert(p.subrange(0, work.len() as int) =~= work);
    assert(rel_of(p, work) =~= rel);
}

/// A path below a root is exactly the root joined with its relative part.
pub proof fn lemma_under_decompose(p: Seq<u8>, root: Seq<u8>)
    requires
        is_under(p, root),
    ensures
        p == joined(root, rel_of(p, root)),
{
    assert(p =~= joined(root, rel_of(p, root)));
}

/// Joining two relative paths onto one root gives equal paths only when the
/// relative paths are equal.
pub proof fn lemma_joined_injective(root: Seq<u8>, rel1: Seq<u8>, rel2: Seq<u8>)
    requires
        joined(root, rel1) == joined(root, rel2),
    ensures
        rel1 == rel2,
{
    let j1 = joined(root, rel1);
    let j2 = joined(root, rel2);
    assert(rel1 =~= j1.subrange(root.len() as int + 1, j1.len() as int));
    assert(rel2 =~= j2.subrange(root.len() as int + 1, j2.len() as int));
}

} // verus!
