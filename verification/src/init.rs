//! Initialization of the working directory: the clearing policy for its
//! direct entries, the populate plan that copies every backup file onto the
//! work root, and the proof that the resulting tree mirrors the backup
//! exactly, whatever the working directory held before.

use vstd::prelude::*;
use crate::paths::{dest_path, is_under, joined, rel_of, lemma_joined_injective,
    lemma_under_decompose};
use crate::table::{DirectorySnapshot, FileRecord, copy_bytes, distinct_paths};

verus! {

/// The kind of one direct entry of the working directory, as the caller
/// observed it on disk.
#[derive(Clone, Copy, PartialEq, Eq, Structural, Debug)]
pub enum EntryKind {
    Directory,
    File,
    /// Neither a directory nor a regular file (for instance a broken
    /// symbolic link).
    Other,
}

/// What the clearing phase does with one direct entry.
#[derive(Clone, Copy, PartialEq, Eq, Structural, Debug)]
pub enum ClearAction {
    /// Remove the entry and everything below it.
    RemoveTree,
    /// Remove the single file.
    RemoveFile,
    /// Stop the initialization with an error: the engine handles no such
    /// entry kind.
    Fail,
}

/// Decides how to clear one direct entry of the working directory:
/// directories are removed recursively, regular files are removed, and an
/// entry of any other kind fails loudly rather than being silently skipped.
pub fn clear_action(kind: EntryKind) -> (a: ClearAction)
    ensures
        a is RemoveTree <==> kind is Directory,
        a is RemoveFile <==> kind is File,
        a is Fail <==> kind is Other,
{
    match kind {
        EntryKind::Directory => ClearAction::RemoveTree,
        EntryKind::File => ClearAction::RemoveFile,
        EntryKind::Other => ClearAction::Fail,
    }
}

/// One planned copy: a source file and the destination it is written to.
#[derive(Debug)]
pub struct CopyOp {
    pub src: Vec<u8>,
    pub dst: Vec<u8>,
}

/// The (source, destination) pairs described by a sequence of copy ops.
pub open spec fn op_pairs(ops: Seq<CopyOp>) -> Seq<(Seq<u8>, Seq<u8>)> {
    ops.map(|i: int, o: CopyOp| (o.src@, o.dst@))
}

/// The populate plan: record `i` of the backup snapshot is copied to its own
/// path rebased from the backup root onto the work root.
pub open spec fn populate_plan(records: Seq<FileRecord>, backup_root: Seq<u8>, work_root: Seq<u8>) -> Seq<(Seq<u8>, Seq<u8>)> {
    records.map(|i: int, r: FileRecord| (r.path@, joined(work_root, rel_of(r.path@, backup_root))))
}

/// A snapshot record whose path does not lie below the root it was walked
/// from; initialization fails on it.
#[derive(Debug)]
pub struct PrefixError {
    pub path: Vec<u8>,
}

/// Plans the populate phase of initialization: one copy per file of the
/// backup snapshot, each to its path rebased onto the work root, in capture
/// order. Succeeds exactly when every snapshot path lies below the backup
/// root; otherwise the error carries the first path that does not.
pub fn plan_populate(snap: &DirectorySnapshot, backup_root: &Vec<u8>, work_root: &Vec<u8>) -> (r: Result<Vec<CopyOp>, PrefixError>)
    ensures
        r is Ok <==> (forall|i: int| 0 <= i < snap.entries().len()
            ==> is_under(#[trigger] snap.entries()[i].path@, backup_root@)),
        r matches Ok(ops) ==> op_pairs(ops@) == populate_plan(snap.entries(), backup_root@, work_root@),
        r matches Err(e) ==> exists|i: int| 0 <= i < snap.entries().len()
            && !is_under(#[trigger] snap.entries()[i].path@, backup_root@)
            && e.path@ == snap.entries()[i].path@
            && (forall|j: int| 0 <= j < i ==> is_under(snap.entries()[j].path@, backup_root@)),
{
    let mut ops: Vec<CopyOp> = Vec::new();
    let n = snap.len();
    let mut i: usize = 0;
    while i < n
        invariant
            n == snap.entries().len(),
            i <= n,
            ops@.len() == i,
            forall|j: int| 0 <= j < i ==> is_under(#[trigger] snap.entries()[j].path@, backup_root@),
            forall|j: int| 0 <= j < i ==> (#[trigger] ops@[j]).src@ == snap.entries()[j].path@
                && ops@[j].dst@ == joined(work_root@, rel_of(snap.entries()[j].path@, backup_root@)),
        decreases n - i,
    {
        let rec = snap.record_at(i);
        match dest_path(&rec.path, backup_root, work_root) {
            Some(d) => {
                ops.push(CopyOp { src: copy_bytes(&rec.path), dst: d });
            },
            None => {
                proof {
                    assert(!is_under(snap.entries()[i as int].path@, backup_root@));
                }
                return Err(PrefixError { path: copy_bytes(&rec.path) });
            },
        }
        i += 1;
    }
    proof {
        assert(op_pairs(ops@) =~= populate_plan(snap.entries(), backup_root@, work_root@));
    }
    Ok(ops)
}

/// The working tree after initialization: cleared to empty, then each record
/// of the backup snapshot written at its rebased path with the backup file's
/// bytes. `contents` maps each backup path to that file's bytes.
pub open spec fn work_after_init(records: Seq<FileRecord>, contents: Map<Seq<u8>, Seq<u8>>, backup_root: Seq<u8>, work_root: Seq<u8>) -> Map<Seq<u8>, Seq<u8>>
    decreases records.len(),
{
    if records.len() == 0 {
        Map::empty()
    } else {
        work_after_init(records.drop_last(), contents, backup_root, work_root).insert(
            joined(work_root, rel_of(records.last().path@, backup_root)),
            contents[records.last().path@],
        )
    }
}

/// Idempotent initialization: after clearing and populating, the working
/// tree holds exactly the backup's files rebased onto the work root — the
/// same file set, neither more nor fewer, with the backup's contents. The
/// tree is a function of the backup snapshot and contents alone, never of
/// what the working directory held before, so a second initialization from
/// the same backup leaves the very same tree.
pub proof fn lemma_init_mirrors_backup(records: Seq<FileRecord>, contents: Map<Seq<u8>, Seq<u8>>, backup_root: Seq<u8>, work_root: Seq<u8>)
    requires
        distinct_paths(records),
        forall|i: int| 0 <= i < records.len() ==> is_under(#[trigger] records[i].path@, backup_root),
    ensures
        forall|q: Seq<u8>| work_after_init(records, contents, backup_root, work_root).contains_key(q)
            <==> exists|i: int| 0 <= i < records.len()
                && q == joined(work_root, rel_of(#[trigger] records[i].path@, backup_root)),
        forall|i: int| 0 <= i < records.len()
            ==> work_after_init(records, contents, backup_root, work_root)[
                    joined(work_root, rel_of(#[trigger] records[i].path@, backup_root))]
                == contents[records[i].path@],
    decreases records.len(),
{
    if records.len() > 0 {
        let w = work_after_init(records, contents, backup_root, work_root);
        let rest = records.drop_last();
        let wrest = work_after_init(rest, contents, backup_root, work_root);
        let last = records.last();
        let klast = joined(work_root, rel_of(last.path@, backup_root));
        assert(forall|i: int| 0 <= i < rest.len() ==> rest[i] == records[i]);
        lemma_init_mirrors_backup(rest, contents, backup_root, work_root);
        assert forall|q: Seq<u8>| w.contains_key(q) <==> exists|i: int| 0 <= i < records.len()
            && q == joined(work_root, rel_of(#[trigger] records[i].path@, backup_root)) by {
            if w.contains_key(q) {
                if q == klast {
                    assert(q == joined(work_root, rel_of(records[records.len() - 1].path@, backup_root)));
                } else {
                    let i = choose|i: int| 0 <= i < rest.len()
                        && q == joined(work_root, rel_of(#[trigger] rest[i].path@, backup_root));
                    assert(q == joined(work_root, rel_of(records[i].path@, backup_root)));
                }
            }
            if exists|i: int| 0 <= i < records.len()
                && q == joined(work_root, rel_of(#[trigger] records[i].path@, backup_root)) {
                let i = choose|i: int| 0 <= i < records.len()
                    && q == joined(work_root, rel_of(#[trigger] records[i].path@, backup_root));
                if i < records.len() - 1 {
                    assert(q == joined(work_root, rel_of(rest[i].path@, backup_root)));
                    assert(wrest.contains_key(q));
                }
            }
        }
        assert forall|i: int| 0 <= i < records.len() implies w[
            joined(work_root, rel_of(#[trigger] records[i].path@, backup_root))]
            == contents[records[i].path@] by {
            let ki = joined(work_root, rel_of(records[i].path@, backup_root));
            if i < records.len() - 1 {
                if ki == klast {
                    lemma_joined_injective(work_root, rel_of(records[i].path@, backup_root),
                        rel_of(last.path@, backup_root));
                    lemma_under_decompose(records[i].path@, backup_root);
                    lemma_under_decompose(last.path@, backup_root);
                    assert(records[i].path@ == last.path@);
                    assert(false);
                }
                assert(ki == joined(work_root, rel_of(rest[i].path@, backup_root)));
                assert(wrest[ki] == contents[records[i].path@]);
            }
        }
    }
}

} // verus!
