//! The modification-time table and the directory snapshot: both map byte
//! paths to modification times in whole seconds, backed by a record list
//! whose mapping is given by the spec function `map_of`.

use vstd::prelude::*;

verus! {

/// One observed file: its path and its modification time in whole seconds
/// since the epoch.
pub struct FileRecord {
    pub path: Vec<u8>,
    pub mtime: u64,
}

/// The mapping described by a sequence of records; a later record overrides
/// an earlier one with the same path.
pub open spec fn map_of(s: Seq<FileRecord>) -> Map<Seq<u8>, u64>
    decreases s.len(),
{
    if s.len() == 0 {
        Map::empty()
    } else {
        map_of(s.drop_last()).insert(s.last().path@, s.last().mtime)
    }
}

/// Every path occurs in at most one record.
pub open spec fn distinct_paths(s: Seq<FileRecord>) -> bool {
    forall|i: int, j: int| 0 <= i < j < s.len() ==> s[i].path@ != s[j].path@
}

/// A path is in the mapping exactly when some record carries it.
pub proof fn lemma_map_of_domain(s: Seq<FileRecord>, k: Seq<u8>)
    ensures
        map_of(s).contains_key(k) <==> exists|i: int| 0 <= i < s.len() && s[i].path@ == k,
    decreases s.len(),
{
    if s.len() > 0 {
        lemma_map_of_domain(s.drop_last(), k);
        if s.last().path@ != k && map_of(s).contains_key(k) {
            let i = choose|i: int|
                0 <= i < s.drop_last().len() && s.drop_last()[i].path@ == k;
            assert(s[i].path@ == k);
        }
        if exists|i: int| 0 <= i < s.len() && s[i].path@ == k {
            let i = choose|i: int| 0 <= i < s.len() && s[i].path@ == k;
            if i < s.len() - 1 {
                assert(s.drop_last()[i].path@ == k);
            }
        }
    }
}

/// Compares two byte paths for equality.
pub fn bytes_eq(a: &Vec<u8>, b: &Vec<u8>) -> (r: bool)
    ensures
        r <==> a@ == b@,
{
    if a.len() != b.len() {
        return false;
    }
    let mut i: usize = 0;
    while i < a.len()
        invariant
            a@.len() == b@.len(),
            i <= a@.len(),
            forall|j: int| 0 <= j < i ==> a@[j] == b@[j],
        decreases a.len() - i,
    {
        if a[i] != b[i] {
            return false;
        }
        i += 1;
    }
    proof {
        assert(a@ =~= b@);
    }
    true
}

/// Returns a copy of a byte path.
pub fn copy_bytes(v: &Vec<u8>) -> (r: Vec<u8>)
    ensures
        r@ == v@,
{
    let mut r: Vec<u8> = Vec::new();
    let mut i: usize = 0;
    while i < v.len()
        invariant
            i <= v@.len(),
            r@ =~= v@.subrange(0, i as int),
        decreases v.len() - i,
    {
        r.push(v[i]);
        i += 1;
    }
    proof {
        assert(r@ =~= v@);
    }
    r
}

/// The engine's persistent memory of the last-observed modification time per
/// file path. Entries are only ever added or overwritten, never removed.
pub struct ModTimeTable {
    entries: Vec<FileRecord>,
}

impl View for ModTimeTable {
    type V = Map<Seq<u8>, u64>;

    closed spec fn view(&self) -> Map<Seq<u8>, u64> {
        map_of(self.entries@)
    }
}

impl ModTimeTable {
    /// The empty table, created when the sync loop starts.
    pub fn new() -> (t: ModTimeTable)
        ensures
            t@ == Map::<Seq<u8>, u64>::empty(),
    {
        ModTimeTable { entries: Vec::new() }
    }

    /// The last-observed modification time recorded for `path`, if any.
    pub fn get(&self, path: &Vec<u8>) -> (r: Option<u64>)
        ensures
            r is Some <==> self@.contains_key(path@),
            r matches Some(t) ==> self@[path@] == t,
    {
        let s = &self.entries;
        proof {
            assert(s@.take(s@.len() as int) =~= s@);
        }
        let mut i: usize = s.len();
        while i > 0
            invariant
                i <= s@.len(),
                self@ == map_of(s@),
                map_of(s@).contains_key(path@) <==> map_of(s@.take(i as int)).contains_key(path@),
                map_of(s@).contains_key(path@) ==> map_of(s@)[path@] == map_of(s@.take(i as int))[path@],
            decreases i,
        {
            proof {
                assert(s@.take(i as int).drop_last() =~= s@.take(i as int - 1));
                assert(s@.take(i as int).last() == s@[i as int - 1]);
            }
            if bytes_eq(&s[i - 1].path, path) {
                return Some(s[i - 1].mtime);
            }
            i -= 1;
        }
        proof {
            assert(s@.take(0) =~= Seq::<FileRecord>::empty());
        }
        None
    }

    /// Records `t` as the last-observed modification time for `path`,
    /// overwriting any earlier entry.
    pub fn insert(&mut self, path: Vec<u8>, t: u64)
        ensures
            final(self)@ == old(self)@.insert(path@, t),
    {
        self.entries.push(FileRecord { path, mtime: t });
        proof {
            assert(self.entries@.drop_last() =~= old(self).entries@);
        }
    }
}

/// A point-in-time capture of a directory tree: every regular file found
/// under the walked root, with its modification time. The caller builds it
/// from one directory walk; a path observed twice keeps its first record, so
/// the records stay distinct.
pub struct DirectorySnapshot {
    records: Vec<FileRecord>,
}

impl View for DirectorySnapshot {
    type V = Map<Seq<u8>, u64>;

    closed spec fn view(&self) -> Map<Seq<u8>, u64> {
        map_of(self.records@)
    }
}

impl DirectorySnapshot {
    /// The capture order of the records.
    pub closed spec fn entries(&self) -> Seq<FileRecord> {
        self.records@
    }

    /// Every path occurs in at most one record.
    pub closed spec fn wf(&self) -> bool {
        distinct_paths(self.records@)
    }

    /// The snapshot's mapping is the one its record sequence describes.
    pub proof fn lemma_view_is_map_of(&self)
        ensures
            self@ == map_of(self.entries()),
    {
    }

    /// A well-formed snapshot has distinct record paths.
    pub proof fn lemma_wf_distinct(&self)
        requires
            self.wf(),
        ensures
            distinct_paths(self.entries()),
    {
    }

    /// The empty snapshot.
    pub fn new() -> (s: DirectorySnapshot)
        ensures
            s.entries() == Seq::<FileRecord>::empty(),
            s@ == Map::<Seq<u8>, u64>::empty(),
            s.wf(),
    {
        DirectorySnapshot { records: Vec::new() }
    }

    /// How many records the snapshot holds.
    pub fn len(&self) -> (n: usize)
        ensures
            n == self.entries().len(),
    {
        self.records.len()
    }

    /// The record at position `i`.
    pub fn record_at(&self, i: usize) -> (r: &FileRecord)
        requires
            i < self.entries().len(),
        ensures
            *r == self.entries()[i as int],
    {
        &self.records[i]
    }

    /// Whether `path` was already observed.
    pub fn contains(&self, path: &Vec<u8>) -> (r: bool)
        ensures
            r <==> self@.contains_key(path@),
    {
        let mut i: usize = 0;
        while i < self.records.len()
            invariant
                i <= self.records@.len(),
                forall|j: int| 0 <= j < i ==> self.records@[j].path@ != path@,
            decreases self.records.len() - i,
        {
            if bytes_eq(&self.records[i].path, path) {
                proof {
                    lemma_map_of_domain(self.records@, path@);
                }
                return true;
            }
            i += 1;
        }
        proof {
            lemma_map_of_domain(self.records@, path@);
        }
        false
    }

    /// Adds one observed file. A path observed before keeps its first
    /// record; otherwise the record is appended.
    pub fn add(&mut self, path: Vec<u8>, mtime: u64)
        requires
            old(self).wf(),
        ensures
            final(self).wf(),
            old(self)@.contains_key(path@) ==> *final(self) == *old(self),
            !old(self)@.contains_key(path@) ==> {
                &&& final(self).entries() == old(self).entries().push((FileRecord { path, mtime }))
                &&& final(self)@ == old(self)@.insert(path@, mtime)
            },
    {
        if self.contains(&path) {
            return;
        }
        proof {
            lemma_map_of_domain(self.records@, path@);
        }
        self.records.push(FileRecord { path, mtime });
        proof {
            assert(self.records@.drop_last() =~= old(self).records@);
        }
    }
}

} // verus!
