//! Directory snapshots: one record per surviving relative path, keyed by
//! that path.  A snapshot abstracts to a map from path to record; inserting
//! a record for a path that is already present replaces the old record, so
//! when two filesystem entries normalize to the same relative path the last
//! one processed wins.

use vstd::prelude::*;
use crate::chars::str_eq;
use crate::exclude::rules_view;
use crate::exclude::should_exclude;
use crate::exclude::spec_excluded;

verus! {

/// One regular file discovered under a tree root: its path relative to that
/// root (separated by `/`), the fingerprint of its content, and its length
/// in bytes.
#[derive(Debug, Clone)]
pub struct FileInfo {
    pub relative_path: String,
    pub hash: String,
    pub size: u64,
}

/// The mathematical shadow of a `FileInfo`.
pub ghost struct FileRecord {
    pub path: Seq<char>,
    pub hash: Seq<char>,
    pub size: u64,
}

impl View for FileInfo {
    type V = FileRecord;

    open spec fn view(&self) -> FileRecord {
        FileRecord { path: self.relative_path@, hash: self.hash@, size: self.size }
    }
}

impl FileInfo {
    /// A fresh copy of the record.
    pub fn duplicate(&self) -> (r: FileInfo)
        ensures
            r@ == self@,
    {
        FileInfo {
            relative_path: self.relative_path.clone(),
            hash: self.hash.clone(),
            size: self.size,
        }
    }
}

/// No two records share a path.
pub open spec fn paths_unique(rs: Seq<FileRecord>) -> bool {
    forall|i: int, j: int| 0 <= i < j < rs.len() ==> rs[i].path != rs[j].path
}

/// The map a record sequence stands for.
pub open spec fn snapshot_map(rs: Seq<FileRecord>) -> Map<Seq<char>, FileRecord> {
    Map::new(
        |p: Seq<char>| exists|i: int| 0 <= i < rs.len() && #[trigger] rs[i].path == p,
        |p: Seq<char>| rs[choose|i: int| 0 <= i < rs.len() && #[trigger] rs[i].path == p],
    )
}

/// A record of the sequence is in the map, under its own path.
pub proof fn lemma_record_in_map(rs: Seq<FileRecord>, i: int)
    requires
        paths_unique(rs),
        0 <= i < rs.len(),
    ensures
        snapshot_map(rs).contains_key(rs[i].path),
        snapshot_map(rs)[rs[i].path] == rs[i],
{
    let p = rs[i].path;
    assert(snapshot_map(rs).contains_key(p));
    let j = choose|j: int| 0 <= j < rs.len() && #[trigger] rs[j].path == p;
    if j != i {
        assert(rs[i].path != rs[j].path);
    }
}

/// The map holds a path exactly when some record carries it.
pub proof fn lemma_map_contains(rs: Seq<FileRecord>, p: Seq<char>)
    ensures
        snapshot_map(rs).contains_key(p) <==> exists|i: int|
            0 <= i < rs.len() && #[trigger] rs[i].path == p,
{
}

/// The snapshot of one directory tree: a collection of file records with
/// pairwise distinct relative paths.
pub struct DirectorySnapshot {
    records: Vec<FileInfo>,
}

impl DirectorySnapshot {
    /// The records in processing order.
    pub closed spec fn records_seq(&self) -> Seq<FileRecord> {
        Seq::new(self.records@.len(), |i: int| self.records@[i]@)
    }

    /// The snapshot invariant: one record per path.
    pub open spec fn wf(&self) -> bool {
        paths_unique(self.records_seq())
    }

    /// What the snapshot means: a map from relative path to record.
    pub open spec fn as_map(&self) -> Map<Seq<char>, FileRecord> {
        snapshot_map(self.records_seq())
    }

    /// An empty snapshot.
    pub fn new() -> (r: DirectorySnapshot)
        ensures
            r.wf(),
            r.as_map() == Map::<Seq<char>, FileRecord>::empty(),
            r.records_seq() == Seq::<FileRecord>::empty(),
    {
        let r = DirectorySnapshot { records: Vec::new() };
        proof {
            assert(r.records_seq() =~= Seq::<FileRecord>::empty());
            assert(r.as_map() =~= Map::<Seq<char>, FileRecord>::empty());
        }
        r
    }

    /// How many records the snapshot holds.
    pub fn len(&self) -> (n: usize)
        ensures
            n == self.records_seq().len(),
    {
        self.records.len()
    }

    /// The record at one position.
    pub fn record_at(&self, i: usize) -> (r: &FileInfo)
        requires
            i < self.records_seq().len(),
        ensures
            r@ == self.records_seq()[i as int],
    {
        &self.records[i]
    }

    /// The position of the record carrying this path, if any.
    fn find_index(&self, path: &str) -> (r: Option<usize>)
        ensures
            match r {
                Some(i) => i < self.records_seq().len() && self.records_seq()[i as int].path
                    == path@,
                None => forall|i: int|
                    0 <= i < self.records_seq().len() ==> self.records_seq()[i].path != path@,
            },
    {
        let mut i: usize = 0;
        while i < self.records.len()
            invariant
                i <= self.records@.len(),
                forall|k: int| 0 <= k < i ==> self.records_seq()[k].path != path@,
            decreases self.records@.len() - i,
        {
            if str_eq(self.records[i].relative_path.as_str(), path) {
                return Some(i);
            }
            i += 1;
        }
        None
    }

    /// Look a path up.
    pub fn get(&self, path: &str) -> (r: Option<&FileInfo>)
        requires
            self.wf(),
        ensures
            match r {
                Some(info) => self.as_map().contains_key(path@) && info@ == self.as_map()[path@],
                None => !self.as_map().contains_key(path@),
            },
    {
        match self.find_index(path) {
            Some(i) => {
                proof {
                    lemma_record_in_map(self.records_seq(), i as int);
                }
                Some(&self.records[i])
            },
            None => {
                proof {
                    lemma_map_contains(self.records_seq(), path@);
                }
                None
            },
        }
    }

    /// Add one record; a record already carrying the same path is replaced.
    pub fn insert(&mut self, info: FileInfo)
        requires
            old(self).wf(),
        ensures
            final(self).wf(),
            final(self).as_map() == old(self).as_map().insert(info@.path, info@),
    {
        let ghost old_rs = self.records_seq();
        let ghost rec = info@;
        match self.find_index(info.relative_path.as_str()) {
            Some(i) => {
                self.records.set(i, info);
                proof {
                    let rs = self.records_seq();
                    assert(rs =~= old_rs.update(i as int, rec));
                    assert forall|a: int, b: int|
                        0 <= a < b < rs.len() implies rs[a].path != rs[b].path by {
                        assert(old_rs[a].path != old_rs[b].path);
                    }
                    lemma_insert_map_update(old_rs, i as int, rec);
                }
            },
            None => {
                self.records.push(info);
                proof {
                    let rs = self.records_seq();
                    assert(rs =~= old_rs.push(rec));
                    lemma_insert_map_push(old_rs, rec);
                }
            },
        }
    }

    /// Assemble a snapshot from records in processing order; on a repeated
    /// path the later record wins.
    pub fn from_records(records: Vec<FileInfo>) -> (r: DirectorySnapshot)
        ensures
            r.wf(),
            r.as_map() == records_fold(Seq::new(records@.len(), |i: int| records@[i]@)),
    {
        let ghost all = Seq::new(records@.len(), |i: int| records@[i]@);
        let mut snap = DirectorySnapshot::new();
        let mut i: usize = 0;
        while i < records.len()
            invariant
                i <= records@.len(),
                all == Seq::new(records@.len(), |k: int| records@[k]@),
                snap.wf(),
                snap.as_map() == records_fold(all.subrange(0, i as int)),
            decreases records@.len() - i,
        {
            let info = records[i].duplicate();
            proof {
                assert(info@ == all[i as int]);
            }
            snap.insert(info);
            proof {
                let pre = all.subrange(0, i as int);
                let cur = all.subrange(0, i + 1);
                assert(cur.drop_last() =~= pre);
                assert(cur.last() == all[i as int]);
            }
            i += 1;
        }
        proof {
            assert(all.subrange(0, all.len() as int) =~= all);
        }
        snap
    }

    /// Assemble a snapshot from records in processing order, dropping every
    /// record the exclusion filter rejects; on a repeated surviving path the
    /// later record wins.  Whatever the records hold, no excluded path ends
    /// up a key of the snapshot.
    pub fn from_records_filtered(
        records: Vec<FileInfo>,
        exclude_extensions: Option<&Vec<String>>,
        exclude_dirs: Option<&Vec<String>>,
    ) -> (r: DirectorySnapshot)
        ensures
            r.wf(),
            r.as_map() == records_fold(
                retained(
                    Seq::new(records@.len(), |i: int| records@[i]@),
                    rules_view(exclude_extensions),
                    rules_view(exclude_dirs),
                ),
            ),
            forall|p: Seq<char>|
                spec_excluded(p, rules_view(exclude_extensions), rules_view(exclude_dirs))
                    ==> !r.as_map().contains_key(p),
    {
        let ghost all = Seq::new(records@.len(), |i: int| records@[i]@);
        let ghost ev = rules_view(exclude_extensions);
        let ghost dv = rules_view(exclude_dirs);
        let mut snap = DirectorySnapshot::new();
        let mut i: usize = 0;
        while i < records.len()
            invariant
                i <= records@.len(),
                all == Seq::new(records@.len(), |k: int| records@[k]@),
                ev == rules_view(exclude_extensions),
                dv == rules_view(exclude_dirs),
                snap.wf(),
                snap.as_map() == records_fold(retained(all.subrange(0, i as int), ev, dv)),
            decreases records@.len() - i,
        {
            let info = &records[i];
            proof {
                assert(info@ == all[i as int]);
            }
            let ghost pre = all.subrange(0, i as int);
            let ghost cur = all.subrange(0, i + 1);
            proof {
                assert(cur.drop_last() =~= pre);
                assert(cur.last() == all[i as int]);
            }
            if !should_exclude(info.relative_path.as_str(), exclude_extensions, exclude_dirs) {
                let kept = info.duplicate();
                snap.insert(kept);
                proof {
                    assert(retained(cur, ev, dv) == retained(pre, ev, dv).push(cur.last()));
                    assert(retained(cur, ev, dv).drop_last() =~= retained(pre, ev, dv));
                }
            } else {
                proof {
                    assert(retained(cur, ev, dv) == retained(pre, ev, dv));
                }
            }
            i += 1;
        }
        proof {
            assert(all.subrange(0, all.len() as int) =~= all);
            assert forall|p: Seq<char>| spec_excluded(p, ev, dv) implies !snap.as_map()
                .contains_key(p) by {
                lemma_filtered_snapshot_excludes(all, ev, dv, p);
            }
        }
        snap
    }
}

/// The map a record sequence folds to, later records winning.
pub open spec fn records_fold(rs: Seq<FileRecord>) -> Map<Seq<char>, FileRecord>
    decreases rs.len(),
{
    if rs.len() == 0 {
        Map::empty()
    } else {
        records_fold(rs.drop_last()).insert(rs.last().path, rs.last())
    }
}

/// The records that survive the exclusion filter, in order.
pub open spec fn retained(
    rs: Seq<FileRecord>,
    exts: Seq<Seq<char>>,
    dirs: Seq<Seq<char>>,
) -> Seq<FileRecord>
    decreases rs.len(),
{
    if rs.len() == 0 {
        Seq::empty()
    } else if spec_excluded(rs.last().path, exts, dirs) {
        retained(rs.drop_last(), exts, dirs)
    } else {
        retained(rs.drop_last(), exts, dirs).push(rs.last())
    }
}

/// Every key of a folded map is some record's path.
proof fn lemma_fold_key_has_record(rs: Seq<FileRecord>, p: Seq<char>)
    requires
        records_fold(rs).contains_key(p),
    ensures
        exists|i: int| 0 <= i < rs.len() && #[trigger] rs[i].path == p,
    decreases rs.len(),
{
    if rs.len() > 0 {
        if rs.last().path == p {
            assert(rs[rs.len() - 1].path == p);
        } else {
            lemma_fold_key_has_record(rs.drop_last(), p);
            let i = choose|i: int|
                0 <= i < rs.drop_last().len() && #[trigger] rs.drop_last()[i].path == p;
            assert(rs[i].path == p);
        }
    }
}

/// No surviving record carries an excluded path.
proof fn lemma_retained_not_excluded(
    rs: Seq<FileRecord>,
    exts: Seq<Seq<char>>,
    dirs: Seq<Seq<char>>,
)
    ensures
        forall|i: int|
            0 <= i < retained(rs, exts, dirs).len() ==> !spec_excluded(
                #[trigger] retained(rs, exts, dirs)[i].path,
                exts,
                dirs,
            ),
    decreases rs.len(),
{
    if rs.len() > 0 {
        lemma_retained_not_excluded(rs.drop_last(), exts, dirs);
        let sub = retained(rs.drop_last(), exts, dirs);
        let whole = retained(rs, exts, dirs);
        if !spec_excluded(rs.last().path, exts, dirs) {
            assert(whole == sub.push(rs.last()));
            assert forall|i: int|
                0 <= i < whole.len() implies !spec_excluded(whole[i].path, exts, dirs) by {
                if i < sub.len() {
                    assert(whole[i] == sub[i]);
                } else {
                    assert(whole[i] == rs.last());
                }
            }
        }
    }
}

/// Law: an excluded path never appears in a filtered snapshot's map,
/// whatever the records said about it.
pub proof fn lemma_filtered_snapshot_excludes(
    rs: Seq<FileRecord>,
    exts: Seq<Seq<char>>,
    dirs: Seq<Seq<char>>,
    p: Seq<char>,
)
    requires
        spec_excluded(p, exts, dirs),
    ensures
        !records_fold(retained(rs, exts, dirs)).contains_key(p),
{
    let kept = retained(rs, exts, dirs);
    if records_fold(kept).contains_key(p) {
        lemma_fold_key_has_record(kept, p);
        lemma_retained_not_excluded(rs, exts, dirs);
        let i = choose|i: int| 0 <= i < kept.len() && #[trigger] kept[i].path == p;
        assert(!spec_excluded(kept[i].path, exts, dirs));
    }
}

/// Replacing the record that carries a path updates the map at that path
/// alone.
proof fn lemma_insert_map_update(rs: Seq<FileRecord>, i: int, rec: FileRecord)
    requires
        paths_unique(rs),
        0 <= i < rs.len(),
        rs[i].path == rec.path,
    ensures
        snapshot_map(rs.update(i, rec)) == snapshot_map(rs).insert(rec.path, rec),
{
    let ns = rs.update(i, rec);
    assert forall|a: int, b: int| 0 <= a < b < ns.len() implies ns[a].path != ns[b].path by {
        assert(rs[a].path != rs[b].path);
    }
    let m1 = snapshot_map(ns);
    let m2 = snapshot_map(rs).insert(rec.path, rec);
    assert forall|p: Seq<char>| m1.contains_key(p) <==> m2.contains_key(p) by {
        if p == rec.path {
            assert(ns[i].path == p);
        } else {
            if exists|a: int| 0 <= a < ns.len() && #[trigger] ns[a].path == p {
                let a = choose|a: int| 0 <= a < ns.len() && #[trigger] ns[a].path == p;
                assert(rs[a].path == p);
            }
            if exists|a: int| 0 <= a < rs.len() && #[trigger] rs[a].path == p {
                let a = choose|a: int| 0 <= a < rs.len() && #[trigger] rs[a].path == p;
                assert(a != i);
                assert(ns[a].path == p);
            }
        }
    }
    assert forall|p: Seq<char>| m1.contains_key(p) implies m1[p] == m2[p] by {
        if p == rec.path {
            lemma_record_in_map(ns, i);
            assert(ns[i] == rec);
        } else {
            let a = choose|a: int| 0 <= a < ns.len() && #[trigger] ns[a].path == p;
            assert(a != i);
            assert(rs[a].path == p);
            lemma_record_in_map(ns, a);
            lemma_record_in_map(rs, a);
        }
    }
    assert(m1 =~= m2);
}

/// Appending a record for a fresh path adds exactly that entry to the map.
proof fn lemma_insert_map_push(rs: Seq<FileRecord>, rec: FileRecord)
    requires
        paths_unique(rs),
        forall|i: int| 0 <= i < rs.len() ==> rs[i].path != rec.path,
    ensures
        paths_unique(rs.push(rec)),
        snapshot_map(rs.push(rec)) == snapshot_map(rs).insert(rec.path, rec),
{
    let ns = rs.push(rec);
    assert forall|a: int, b: int| 0 <= a < b < ns.len() implies ns[a].path != ns[b].path by {
        if b < rs.len() {
            assert(rs[a].path != rs[b].path);
        } else {
            assert(ns[b] == rec);
            assert(ns[a] == rs[a]);
        }
    }
    let m1 = snapshot_map(ns);
    let m2 = snapshot_map(rs).insert(rec.path, rec);
    assert forall|p: Seq<char>| m1.contains_key(p) <==> m2.contains_key(p) by {
        if p == rec.path {
            assert(ns[rs.len() as int].path == p);
        } else {
            if exists|a: int| 0 <= a < ns.len() && #[trigger] ns[a].path == p {
                let a = choose|a: int| 0 <= a < ns.len() && #[trigger] ns[a].path == p;
                assert(a < rs.len());
                assert(rs[a].path == p);
            }
            if exists|a: int| 0 <= a < rs.len() && #[trigger] rs[a].path == p {
                let a = choose|a: int| 0 <= a < rs.len() && #[trigger] rs[a].path == p;
                assert(ns[a].path == p);
            }
        }
    }
    assert forall|p: Seq<char>| m1.contains_key(p) implies m1[p] == m2[p] by {
        if p == rec.path {
            lemma_record_in_map(ns, rs.len() as int);
        } else {
            let a = choose|a: int| 0 <= a < ns.len() && #[trigger] ns[a].path == p;
            assert(a < rs.len());
            assert(rs[a].path == p);
            lemma_record_in_map(ns, a);
            lemma_record_in_map(rs, a);
        }
    }
    assert(m1 =~= m2);
}

} // verus!
