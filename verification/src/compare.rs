//! The snapshot differencer: given a source and a target snapshot it returns
//! the set of file-level differences.  A path only in the target yields
//! `Added` with the target's record; a path in both whose fingerprints
//! differ yields `Modified`, again with the target's record; a path only in
//! the source yields `Removed` with the path alone.  A path in both with
//! equal fingerprints yields nothing.  The result is logically a set: its
//! order carries no meaning, and no path appears twice.

use vstd::prelude::*;
use crate::chars::str_eq;
use crate::snapshot::DirectorySnapshot;
use crate::snapshot::FileInfo;
use crate::snapshot::FileRecord;
use crate::snapshot::lemma_map_contains;
use crate::snapshot::lemma_record_in_map;

verus! {

/// One file-level difference between two snapshots.
#[derive(Debug, Clone)]
pub enum DiffType {
    Added(FileInfo),
    Modified(FileInfo),
    Removed(String),
}

/// The mathematical shadow of a `DiffType`.
pub ghost enum DiffEntry {
    Added(FileRecord),
    Modified(FileRecord),
    Removed(Seq<char>),
}

impl View for DiffType {
    type V = DiffEntry;

    open spec fn view(&self) -> DiffEntry {
        match self {
            DiffType::Added(info) => DiffEntry::Added(info@),
            DiffType::Modified(info) => DiffEntry::Modified(info@),
            DiffType::Removed(path) => DiffEntry::Removed(path@),
        }
    }
}

/// The path an entry speaks about.
pub open spec fn entry_path(d: DiffEntry) -> Seq<char> {
    match d {
        DiffEntry::Added(rec) => rec.path,
        DiffEntry::Modified(rec) => rec.path,
        DiffEntry::Removed(path) => path,
    }
}

/// The entry says something true of the two snapshots.
pub open spec fn entry_ok(
    src: Map<Seq<char>, FileRecord>,
    tgt: Map<Seq<char>, FileRecord>,
    d: DiffEntry,
) -> bool {
    match d {
        DiffEntry::Added(rec) => tgt.contains_key(rec.path) && !src.contains_key(rec.path)
            && rec == tgt[rec.path],
        DiffEntry::Modified(rec) => tgt.contains_key(rec.path) && src.contains_key(rec.path)
            && src[rec.path].hash != tgt[rec.path].hash && rec == tgt[rec.path],
        DiffEntry::Removed(path) => src.contains_key(path) && !tgt.contains_key(path),
    }
}

/// The path differs between the snapshots: added, modified, or removed.
pub open spec fn changed_path(
    src: Map<Seq<char>, FileRecord>,
    tgt: Map<Seq<char>, FileRecord>,
    p: Seq<char>,
) -> bool {
    (tgt.contains_key(p) && (!src.contains_key(p) || src[p].hash != tgt[p].hash)) || (
    src.contains_key(p) && !tgt.contains_key(p))
}

/// Some entry speaks about the path.
pub open spec fn covered(ds: Seq<DiffEntry>, p: Seq<char>) -> bool {
    exists|k: int| 0 <= k < ds.len() && entry_path(#[trigger] ds[k]) == p
}

/// The views of the returned entries.
pub open spec fn entries_view(v: Seq<DiffType>) -> Seq<DiffEntry> {
    Seq::new(v.len(), |i: int| v[i]@)
}

/// The full contract of the differencer: every entry is true of the two
/// snapshots, no two entries speak about the same path, and every changed
/// path has an entry.
pub open spec fn diff_post(
    src: Map<Seq<char>, FileRecord>,
    tgt: Map<Seq<char>, FileRecord>,
    ds: Seq<DiffEntry>,
) -> bool {
    &&& forall|k: int| 0 <= k < ds.len() ==> entry_ok(src, tgt, #[trigger] ds[k])
    &&& forall|k1: int, k2: int|
        0 <= k1 < k2 < ds.len() ==> entry_path(#[trigger] ds[k1]) != entry_path(
            #[trigger] ds[k2],
        )
    &&& forall|p: Seq<char>| #[trigger] changed_path(src, tgt, p) ==> covered(ds, p)
}

/// Compute the differences between two snapshots.
#[verifier::loop_isolation(false)]
pub fn diff_snapshots(source: &DirectorySnapshot, target: &DirectorySnapshot) -> (r: Vec<
    DiffType,
>)
    requires
        source.wf(),
        target.wf(),
    ensures
        diff_post(source.as_map(), target.as_map(), entries_view(r@)),
{
    let ghost smap = source.as_map();
    let ghost tmap = target.as_map();
    let ghost sseq = source.records_seq();
    let ghost tseq = target.records_seq();
    let mut out: Vec<DiffType> = Vec::new();

    // Pass over the target: added and modified paths.
    let mut i: usize = 0;
    while i < target.len()
        invariant
            i <= tseq.len(),
            forall|k: int| 0 <= k < out@.len() ==> entry_ok(smap, tmap, #[trigger] out@[k]@),
            forall|k: int|
                0 <= k < out@.len() ==> exists|j: int|
                    0 <= j < i && entry_path(#[trigger] out@[k]@) == tseq[j].path,
            forall|k1: int, k2: int|
                0 <= k1 < k2 < out@.len() ==> entry_path(#[trigger] out@[k1]@) != entry_path(
                    #[trigger] out@[k2]@,
                ),
            forall|j: int|
                0 <= j < i && changed_path(smap, tmap, #[trigger] tseq[j].path) ==> covered(
                    entries_view(out@),
                    tseq[j].path,
                ),
        decreases tseq.len() - i,
    {
        let tinfo = target.record_at(i);
        let ghost p = tseq[i as int].path;
        proof {
            lemma_record_in_map(tseq, i as int);
        }
        let ghost out0 = out@;
        let mut pushed = false;
        match source.get(tinfo.relative_path.as_str()) {
            Some(sinfo) => {
                if !str_eq(sinfo.hash.as_str(), tinfo.hash.as_str()) {
                    out.push(DiffType::Modified(tinfo.duplicate()));
                    pushed = true;
                }
            },
            None => {
                out.push(DiffType::Added(tinfo.duplicate()));
                pushed = true;
            },
        }
        proof {
            if pushed {
                assert(out@ =~= out0.push(out@.last()));
                assert(entry_path(out@.last()@) == p);
                assert(entry_ok(smap, tmap, out@.last()@));
                assert forall|k1: int, k2: int|
                    0 <= k1 < k2 < out@.len() implies entry_path(out@[k1]@) != entry_path(
                    out@[k2]@,
                ) by {
                    if k2 == out@.len() - 1 {
                        let j = choose|j: int|
                            0 <= j < i && entry_path(out0[k1]@) == tseq[j].path;
                        assert(tseq[j].path != tseq[i as int].path);
                    }
                }
            } else {
                assert(!changed_path(smap, tmap, p));
            }
            assert forall|j: int|
                0 <= j < i + 1 && changed_path(smap, tmap, #[trigger] tseq[j].path) implies
                covered(entries_view(out@), tseq[j].path) by {
                if j < i {
                    assert(covered(entries_view(out0), tseq[j].path));
                    let k = choose|k: int|
                        0 <= k < out0.len() && entry_path(#[trigger] out0[k]@) == tseq[j].path;
                    assert(entries_view(out@)[k] == out0[k]@);
                } else {
                    assert(entry_path(out@.last()@) == p);
                    assert(entries_view(out@)[out@.len() - 1] == out@.last()@);
                }
            }
        }
        i += 1;
    }

    proof {
        // Every changed path the target holds is covered.
        assert forall|p: Seq<char>|
            tmap.contains_key(p) && changed_path(smap, tmap, p) implies covered(
            entries_view(out@),
            p,
        ) by {
            lemma_map_contains(tseq, p);
            let j = choose|j: int| 0 <= j < tseq.len() && #[trigger] tseq[j].path == p;
            assert(changed_path(smap, tmap, tseq[j].path));
        }
        // Nothing so far is a removal.
        assert forall|k: int| 0 <= k < out@.len() implies !(out@[k]@ is Removed) by {
            assert(entry_ok(smap, tmap, out@[k]@));
            if out@[k]@ is Removed {
                let j = choose|j: int|
                    0 <= j < tseq.len() && entry_path(#[trigger] out@[k]@) == tseq[j].path;
            }
        }
    }

    // Pass over the source: removed paths.
    let mut s: usize = 0;
    while s < source.len()
        invariant
            s <= sseq.len(),
            forall|k: int| 0 <= k < out@.len() ==> entry_ok(smap, tmap, #[trigger] out@[k]@),
            forall|k1: int, k2: int|
                0 <= k1 < k2 < out@.len() ==> entry_path(#[trigger] out@[k1]@) != entry_path(
                    #[trigger] out@[k2]@,
                ),
            forall|p: Seq<char>|
                tmap.contains_key(p) && #[trigger] changed_path(smap, tmap, p) ==> covered(
                    entries_view(out@),
                    p,
                ),
            forall|k: int|
                0 <= k < out@.len() && #[trigger] out@[k]@ is Removed ==> exists|j: int|
                    0 <= j < s && entry_path(out@[k]@) == sseq[j].path,
            forall|j: int|
                0 <= j < s && !tmap.contains_key(#[trigger] sseq[j].path) ==> covered(
                    entries_view(out@),
                    sseq[j].path,
                ),
        decreases sseq.len() - s,
    {
        let sinfo = source.record_at(s);
        let ghost p = sseq[s as int].path;
        proof {
            lemma_record_in_map(sseq, s as int);
        }
        let ghost out0 = out@;
        let mut pushed = false;
        match target.get(sinfo.relative_path.as_str()) {
            Some(_) => {},
            None => {
                out.push(DiffType::Removed(sinfo.relative_path.clone()));
                pushed = true;
            },
        }
        proof {
            if pushed {
                assert(out@ =~= out0.push(out@.last()));
                assert(entry_path(out@.last()@) == p);
                assert(entry_ok(smap, tmap, out@.last()@));
                assert forall|k1: int, k2: int|
                    0 <= k1 < k2 < out@.len() implies entry_path(out@[k1]@) != entry_path(
                    out@[k2]@,
                ) by {
                    if k2 == out@.len() - 1 {
                        assert(entry_ok(smap, tmap, out0[k1]@));
                        if out0[k1]@ is Removed {
                            let j = choose|j: int|
                                0 <= j < s && entry_path(out0[k1]@) == sseq[j].path;
                            assert(sseq[j].path != sseq[s as int].path);
                        } else {
                            assert(tmap.contains_key(entry_path(out0[k1]@)));
                        }
                    }
                }
                assert forall|p2: Seq<char>|
                    tmap.contains_key(p2) && #[trigger] changed_path(smap, tmap, p2) implies
                    covered(entries_view(out@), p2) by {
                    let k = choose|k: int|
                        0 <= k < out0.len() && entry_path(#[trigger] out0[k]@) == p2;
                    assert(entries_view(out@)[k] == out0[k]@);
                }
            }
            assert forall|j: int|
                0 <= j < s + 1 && !tmap.contains_key(#[trigger] sseq[j].path) implies covered(
                entries_view(out@),
                sseq[j].path,
            ) by {
                if j < s {
                    let k = choose|k: int|
                        0 <= k < out0.len() && entry_path(#[trigger] out0[k]@) == sseq[j].path;
                    assert(entries_view(out@)[k] == out0[k]@);
                } else {
                    assert(pushed);
                    assert(entries_view(out@)[out@.len() - 1] == out@.last()@);
                }
            }
        }
        s += 1;
    }

    proof {
        assert forall|p: Seq<char>| #[trigger] changed_path(smap, tmap, p) implies covered(
            entries_view(out@),
            p,
        ) by {
            if !tmap.contains_key(p) {
                lemma_map_contains(sseq, p);
                let j = choose|j: int| 0 <= j < sseq.len() && #[trigger] sseq[j].path == p;
            }
        }
    }
    out
}

/// An entry only ever speaks about a changed path.
pub proof fn lemma_entry_path_changed(
    src: Map<Seq<char>, FileRecord>,
    tgt: Map<Seq<char>, FileRecord>,
    d: DiffEntry,
)
    requires
        entry_ok(src, tgt, d),
    ensures
        changed_path(src, tgt, entry_path(d)),
{
}

/// The two snapshots pin an entry down by its path alone.
pub proof fn lemma_entry_determined(
    src: Map<Seq<char>, FileRecord>,
    tgt: Map<Seq<char>, FileRecord>,
    d1: DiffEntry,
    d2: DiffEntry,
)
    requires
        entry_ok(src, tgt, d1),
        entry_ok(src, tgt, d2),
        entry_path(d1) == entry_path(d2),
    ensures
        d1 == d2,
{
}

/// Law: two identical trees — same paths, and content whose fingerprints
/// agree path by path — diff to nothing.
pub proof fn lemma_identical_snapshots_empty(
    src: Map<Seq<char>, FileRecord>,
    tgt: Map<Seq<char>, FileRecord>,
    ds: Seq<DiffEntry>,
)
    requires
        src.dom() == tgt.dom(),
        forall|p: Seq<char>| src.contains_key(p) ==> src[p].hash == tgt[p].hash,
        diff_post(src, tgt, ds),
    ensures
        ds.len() == 0,
{
    if ds.len() > 0 {
        let d = ds[0];
        assert(entry_ok(src, tgt, d));
        let p = entry_path(d);
        match d {
            DiffEntry::Added(rec) => {
                assert(tgt.dom().contains(p));
                assert(src.dom().contains(p));
            },
            DiffEntry::Modified(rec) => {
                assert(src[p].hash == tgt[p].hash);
            },
            DiffEntry::Removed(path) => {
                assert(src.dom().contains(path));
                assert(tgt.dom().contains(path));
            },
        }
    }
}

/// One direction of the idempotence law.
proof fn lemma_diff_subset(
    src: Map<Seq<char>, FileRecord>,
    tgt: Map<Seq<char>, FileRecord>,
    ds1: Seq<DiffEntry>,
    ds2: Seq<DiffEntry>,
)
    requires
        diff_post(src, tgt, ds1),
        diff_post(src, tgt, ds2),
    ensures
        forall|d: DiffEntry| ds1.contains(d) ==> ds2.contains(d),
{
    assert forall|d: DiffEntry| ds1.contains(d) implies ds2.contains(d) by {
        let k = choose|k: int| 0 <= k < ds1.len() && ds1[k] == d;
        assert(entry_ok(src, tgt, ds1[k]));
        lemma_entry_path_changed(src, tgt, d);
        assert(covered(ds2, entry_path(d)));
        let k2 = choose|k2: int|
            0 <= k2 < ds2.len() && entry_path(#[trigger] ds2[k2]) == entry_path(d);
        assert(entry_ok(src, tgt, ds2[k2]));
        lemma_entry_determined(src, tgt, d, ds2[k2]);
        assert(ds2.contains(ds2[k2]));
    }
}

/// Law: the diff of two unchanged snapshots is the same set of entries on
/// every run, whatever order the entries come out in.
pub proof fn lemma_diff_deterministic(
    src: Map<Seq<char>, FileRecord>,
    tgt: Map<Seq<char>, FileRecord>,
    ds1: Seq<DiffEntry>,
    ds2: Seq<DiffEntry>,
)
    requires
        diff_post(src, tgt, ds1),
        diff_post(src, tgt, ds2),
    ensures
        forall|d: DiffEntry| ds1.contains(d) <==> ds2.contains(d),
{
    lemma_diff_subset(src, tgt, ds1, ds2);
    lemma_diff_subset(src, tgt, ds2, ds1);
}

/// Law: a path only the target holds yields exactly one entry — an `Added`
/// carrying the target's record — and no `Modified` or `Removed` entry.
pub proof fn lemma_added_exactly_once(
    src: Map<Seq<char>, FileRecord>,
    tgt: Map<Seq<char>, FileRecord>,
    ds: Seq<DiffEntry>,
    p: Seq<char>,
)
    requires
        diff_post(src, tgt, ds),
        tgt.contains_key(p),
        !src.contains_key(p),
    ensures
        exists|k: int| 0 <= k < ds.len() && #[trigger] ds[k] == DiffEntry::Added(tgt[p]),
        forall|k: int|
            0 <= k < ds.len() && entry_path(#[trigger] ds[k]) == p ==> ds[k]
                == DiffEntry::Added(tgt[p]),
        forall|k1: int, k2: int|
            0 <= k1 < ds.len() && 0 <= k2 < ds.len() && entry_path(#[trigger] ds[k1]) == p
                && entry_path(#[trigger] ds[k2]) == p ==> k1 == k2,
{
    assert(changed_path(src, tgt, p));
    assert(covered(ds, p));
    let k = choose|k: int| 0 <= k < ds.len() && entry_path(#[trigger] ds[k]) == p;
    lemma_entry_determined(src, tgt, ds[k], DiffEntry::Added(tgt[p]));
    assert forall|k2: int|
        0 <= k2 < ds.len() && entry_path(#[trigger] ds[k2]) == p implies ds[k2]
        == DiffEntry::Added(tgt[p]) by {
        lemma_entry_determined(src, tgt, ds[k2], DiffEntry::Added(tgt[p]));
    }
    assert forall|k1: int, k2: int|
        0 <= k1 < ds.len() && 0 <= k2 < ds.len() && entry_path(#[trigger] ds[k1]) == p
            && entry_path(#[trigger] ds[k2]) == p implies k1 == k2 by {
        if k1 < k2 || k2 < k1 {
            assert(entry_path(ds[k1]) != entry_path(ds[k2]));
        }
    }
}

/// Law: a path only the source holds yields exactly one entry — a `Removed`
/// carrying the path — and no `Added` or `Modified` entry.
pub proof fn lemma_removed_exactly_once(
    src: Map<Seq<char>, FileRecord>,
    tgt: Map<Seq<char>, FileRecord>,
    ds: Seq<DiffEntry>,
    p: Seq<char>,
)
    requires
        diff_post(src, tgt, ds),
        src.contains_key(p),
        !tgt.contains_key(p),
    ensures
        exists|k: int| 0 <= k < ds.len() && #[trigger] ds[k] == DiffEntry::Removed(p),
        forall|k: int|
            0 <= k < ds.len() && entry_path(#[trigger] ds[k]) == p ==> ds[k]
                == DiffEntry::Removed(p),
        forall|k1: int, k2: int|
            0 <= k1 < ds.len() && 0 <= k2 < ds.len() && entry_path(#[trigger] ds[k1]) == p
                && entry_path(#[trigger] ds[k2]) == p ==> k1 == k2,
{
    assert(changed_path(src, tgt, p));
    assert(covered(ds, p));
    let k = choose|k: int| 0 <= k < ds.len() && entry_path(#[trigger] ds[k]) == p;
    lemma_entry_determined(src, tgt, ds[k], DiffEntry::Removed(p));
    assert forall|k2: int|
        0 <= k2 < ds.len() && entry_path(#[trigger] ds[k2]) == p implies ds[k2]
        == DiffEntry::Removed(p) by {
        lemma_entry_determined(src, tgt, ds[k2], DiffEntry::Removed(p));
    }
    assert forall|k1: int, k2: int|
        0 <= k1 < ds.len() && 0 <= k2 < ds.len() && entry_path(#[trigger] ds[k1]) == p
            && entry_path(#[trigger] ds[k2]) == p implies k1 == k2 by {
        if k1 < k2 || k2 < k1 {
            assert(entry_path(ds[k1]) != entry_path(ds[k2]));
        }
    }
}

/// Law: a path both snapshots hold with differing fingerprints yields
/// exactly one entry — a `Modified` carrying the target's record, never the
/// source's — and no `Added` or `Removed` entry.
pub proof fn lemma_modified_exactly_once(
    src: Map<Seq<char>, FileRecord>,
    tgt: Map<Seq<char>, FileRecord>,
    ds: Seq<DiffEntry>,
    p: Seq<char>,
)
    requires
        diff_post(src, tgt, ds),
        src.contains_key(p),
        tgt.contains_key(p),
        src[p].hash != tgt[p].hash,
    ensures
        exists|k: int| 0 <= k < ds.len() && #[trigger] ds[k] == DiffEntry::Modified(tgt[p]),
        forall|k: int|
            0 <= k < ds.len() && entry_path(#[trigger] ds[k]) == p ==> ds[k]
                == DiffEntry::Modified(tgt[p]),
        forall|k1: int, k2: int|
            0 <= k1 < ds.len() && 0 <= k2 < ds.len() && entry_path(#[trigger] ds[k1]) == p
                && entry_path(#[trigger] ds[k2]) == p ==> k1 == k2,
{
    assert(changed_path(src, tgt, p));
    assert(covered(ds, p));
    let k = choose|k: int| 0 <= k < ds.len() && entry_path(#[trigger] ds[k]) == p;
    lemma_entry_determined(src, tgt, ds[k], DiffEntry::Modified(tgt[p]));
    assert forall|k2: int|
        0 <= k2 < ds.len() && entry_path(#[trigger] ds[k2]) == p implies ds[k2]
        == DiffEntry::Modified(tgt[p]) by {
        lemma_entry_determined(src, tgt, ds[k2], DiffEntry::Modified(tgt[p]));
    }
    assert forall|k1: int, k2: int|
        0 <= k1 < ds.len() && 0 <= k2 < ds.len() && entry_path(#[trigger] ds[k1]) == p
            && entry_path(#[trigger] ds[k2]) == p implies k1 == k2 by {
        if k1 < k2 || k2 < k1 {
            assert(entry_path(ds[k1]) != entry_path(ds[k2]));
        }
    }
}

/// Law: a path both snapshots hold with equal fingerprints yields no entry.
pub proof fn lemma_unchanged_no_entry(
    src: Map<Seq<char>, FileRecord>,
    tgt: Map<Seq<char>, FileRecord>,
    ds: Seq<DiffEntry>,
    p: Seq<char>,
)
    requires
        diff_post(src, tgt, ds),
        src.contains_key(p),
        tgt.contains_key(p),
        src[p].hash == tgt[p].hash,
    ensures
        forall|k: int| 0 <= k < ds.len() ==> entry_path(#[trigger] ds[k]) != p,
{
    assert forall|k: int| 0 <= k < ds.len() implies entry_path(#[trigger] ds[k]) != p by {
        assert(entry_ok(src, tgt, ds[k]));
    }
}

} // verus!
