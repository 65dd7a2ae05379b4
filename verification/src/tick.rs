//! One tick of the sync loop: diff a fresh directory snapshot against the
//! modification-time table, decide per file whether to copy, and update the
//! table for newly observed files.

use vstd::prelude::*;
use crate::table::{DirectorySnapshot, FileRecord, ModTimeTable, distinct_paths, map_of,
    copy_bytes, lemma_map_of_domain};

verus! {

/// What the engine decides to do with one observed file on one tick.
#[derive(Clone, Copy, PartialEq, Eq, Structural, Debug)]
pub enum SyncAction {
    /// Not seen before: remember the current wall-clock time and copy it.
    CopyNew,
    /// Seen before, and the observed modification time moved forward: copy
    /// it again. The stored time is deliberately left unchanged.
    CopyModified,
    /// Seen before and not newer: leave it alone.
    Skip,
}

/// The tick decision for one file, from the table's entry for it and the
/// snapshot's freshly observed modification time.
pub open spec fn action_of(prior: Option<u64>, observed: u64) -> SyncAction {
    match prior {
        Option::None => SyncAction::CopyNew,
        Option::Some(t) => if observed > t {
            SyncAction::CopyModified
        } else {
            SyncAction::Skip
        },
    }
}

/// Decides the action for one file.
pub fn classify(prior: Option<u64>, observed: u64) -> (a: SyncAction)
    ensures
        a == action_of(prior, observed),
{
    match prior {
        None => SyncAction::CopyNew,
        Some(t) => if observed > t {
            SyncAction::CopyModified
        } else {
            SyncAction::Skip
        },
    }
}

/// Whether a tick must copy `p`: the snapshot observed it, and it is either
/// unknown to the table or newer than the table's entry.
pub open spec fn should_copy(table: Map<Seq<u8>, u64>, snap: Map<Seq<u8>, u64>, p: Seq<u8>) -> bool {
    &&& snap.contains_key(p)
    &&& (!table.contains_key(p) || snap[p] > table[p])
}

/// The table after a tick: every path new to the table is recorded at the
/// wall-clock time `now`; entries already present are left unchanged, and
/// none is removed.
pub open spec fn table_after_tick(table: Map<Seq<u8>, u64>, snap: Map<Seq<u8>, u64>, now: u64) -> Map<Seq<u8>, u64> {
    Map::new(
        |p: Seq<u8>| table.contains_key(p) || snap.contains_key(p),
        |p: Seq<u8>| if table.contains_key(p) {
            table[p]
        } else {
            now
        },
    )
}

/// A path occurs in a copy list.
pub open spec fn lists_path(copies: Seq<Vec<u8>>, p: Seq<u8>) -> bool {
    exists|i: int| 0 <= i < copies.len() && copies[i]@ == p
}

/// One tick's diff and dispatch decision. Walks the snapshot against the
/// table and returns the paths that must be copied to the backup directory:
/// exactly those the snapshot observed that are new to the table or newer
/// than the table's entry, each listed once. Newly observed paths are
/// recorded in the table at the wall-clock time `now`; existing entries are
/// left unchanged, and no entry is ever removed.
pub fn plan_tick(table: &mut ModTimeTable, snap: &DirectorySnapshot, now: u64) -> (copies: Vec<Vec<u8>>)
    requires
        snap.wf(),
    ensures
        forall|p: Seq<u8>| lists_path(copies@, p) <==> should_copy(old(table)@, snap@, p),
        final(table)@ == table_after_tick(old(table)@, snap@, now),
        forall|i: int, j: int| 0 <= i < j < copies@.len() ==> copies@[i]@ != copies@[j]@,
{
    let ghost t0 = table@;
    proof {
        snap.lemma_view_is_map_of();
        snap.lemma_wf_distinct();
        assert(snap.entries().take(0) =~= Seq::<FileRecord>::empty());
        assert(table@ =~= table_after_tick(t0, map_of(snap.entries().take(0)), now));
    }
    let mut copies: Vec<Vec<u8>> = Vec::new();
    let mut idx: usize = 0;
    while idx < snap.len()
        invariant
            idx <= snap.entries().len(),
            snap.wf(),
            distinct_paths(snap.entries()),
            snap@ == map_of(snap.entries()),
            table@ == table_after_tick(t0, map_of(snap.entries().take(idx as int)), now),
            forall|p: Seq<u8>| lists_path(copies@, p)
                <==> should_copy(t0, map_of(snap.entries().take(idx as int)), p),
            forall|i: int, j: int| 0 <= i < j < copies@.len() ==> copies@[i]@ != copies@[j]@,
        decreases snap.entries().len() - idx,
    {
        let rec = snap.record_at(idx);
        let ghost m = map_of(snap.entries().take(idx as int));
        let ghost m2 = map_of(snap.entries().take(idx as int + 1));
        let ghost p0 = rec.path@;
        proof {
            assert(snap.entries().take(idx as int + 1).drop_last() =~= snap.entries().take(idx as int));
            assert(snap.entries().take(idx as int + 1).last() == snap.entries()[idx as int]);
            assert(m2 == m.insert(p0, rec.mtime));
            lemma_map_of_domain(snap.entries().take(idx as int), p0);
            assert(forall|j: int| 0 <= j < idx ==> snap.entries().take(idx as int)[j].path@ != p0);
            assert(!m.contains_key(p0));
        }
        let prior = table.get(&rec.path);
        let ghost before = copies@;
        match classify(prior, rec.mtime) {
            SyncAction::CopyNew => {
                proof {
                    assert(!t0.contains_key(p0));
                    assert(should_copy(t0, m2, p0));
                }
                table.insert(copy_bytes(&rec.path), now);
                copies.push(copy_bytes(&rec.path));
            },
            SyncAction::CopyModified => {
                proof {
                    assert(t0.contains_key(p0) && m2[p0] > t0[p0]);
                    assert(should_copy(t0, m2, p0));
                }
                copies.push(copy_bytes(&rec.path));
            },
            SyncAction::Skip => {
                proof {
                    assert(t0.contains_key(p0) && m2[p0] <= t0[p0]);
                    assert(!should_copy(t0, m2, p0));
                }
            },
        }
        proof {
            assert(table@ =~= table_after_tick(t0, m2, now));
            assert forall|i: int| 0 <= i < before.len() implies before[i]@ != p0 by {
                if before[i]@ == p0 {
                    assert(lists_path(before, p0));
                    assert(m.contains_key(p0));
                }
            }
            assert forall|p: Seq<u8>| lists_path(copies@, p) <==> should_copy(t0, m2, p) by {
                if lists_path(copies@, p) {
                    let i = choose|i: int| 0 <= i < copies@.len() && copies@[i]@ == p;
                    if i < before.len() {
                        assert(before[i]@ == p);
                        assert(lists_path(before, p));
                        assert(should_copy(t0, m, p));
                        assert(m.contains_key(p));
                        assert(p != p0);
                        assert(m2.contains_key(p) && m2[p] == m[p]);
                        assert(should_copy(t0, m2, p));
                    } else {
                        assert(copies@[i]@ == p0);
                        assert(should_copy(t0, m2, p));
                    }
                }
                if should_copy(t0, m2, p) && p != p0 {
                    assert(m2.contains_key(p) == m.contains_key(p));
                    assert(m.contains_key(p) ==> m2[p] == m[p]);
                    assert(should_copy(t0, m, p));
                    assert(lists_path(before, p));
                    let i = choose|i: int| 0 <= i < before.len() && before[i]@ == p;
                    assert(copies@[i]@ == p);
                    assert(lists_path(copies@, p));
                }
                if should_copy(t0, m2, p) && p == p0 {
                    assert(copies@[copies@.len() - 1]@ == p0);
                    assert(lists_path(copies@, p));
                }
            }
        }
        idx += 1;
    }
    proof {
        assert(snap.entries().take(snap.entries().len() as int) =~= snap.entries());
    }
    copies
}

/// No deletion propagation: a tick never removes or rewrites an existing
/// table entry, and a path the snapshot did not observe is never copied — so
/// a file removed from the working directory keeps its backup, forever.
pub proof fn lemma_no_deletion(table: Map<Seq<u8>, u64>, snap: Map<Seq<u8>, u64>, now: u64, p: Seq<u8>)
    requires
        table.contains_key(p),
    ensures
        table_after_tick(table, snap, now).contains_key(p),
        table_after_tick(table, snap, now)[p] == table[p],
        !snap.contains_key(p) ==> !should_copy(table, snap, p),
{
}

/// New-file propagation: a path the snapshot observed but the table does not
/// know is always copied, and the table afterwards remembers it at the
/// wall-clock time `now`.
pub proof fn lemma_new_file_propagation(table: Map<Seq<u8>, u64>, snap: Map<Seq<u8>, u64>, now: u64, p: Seq<u8>)
    requires
        snap.contains_key(p),
        !table.contains_key(p),
    ensures
        should_copy(table, snap, p),
        table_after_tick(table, snap, now).contains_key(p),
        table_after_tick(table, snap, now)[p] == now,
{
}

/// Tick convergence: a known file whose observed modification time moved
/// forward is copied on the very tick that observes it, while a file whose
/// observed time did not move forward is left alone and its table entry
/// stays as it was.
pub proof fn lemma_tick_convergence(table: Map<Seq<u8>, u64>, snap: Map<Seq<u8>, u64>, now: u64, changed: Seq<u8>, unchanged: Seq<u8>)
    requires
        snap.contains_key(changed),
        table.contains_key(changed),
        snap[changed] > table[changed],
        snap.contains_key(unchanged),
        table.contains_key(unchanged),
        snap[unchanged] <= table[unchanged],
    ensures
        should_copy(table, snap, changed),
        !should_copy(table, snap, unchanged),
        table_after_tick(table, snap, now)[unchanged] == table[unchanged],
{
}

} // verus!
