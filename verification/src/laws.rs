//! Laws of the indexing pipeline: idempotence, the dedup invariant, and
//! the purge-and-rebuild guarantee, proved over the catalog model that the
//! orchestrator's contracts are stated in.

use vstd::prelude::*;

use crate::fetching::{
    entry_data_of, file_bytes, file_hash, good_duration, index_fold, upsert_spec, ProbedFile,
};
use crate::library::{
    count_for_source_spec, entry_of, has_hash, lemma_purge_entries, purge_spec, unique_hashes,
    CatalogEntry,
};

verus! {

/// Two files with identical decoded audio content carry the same content
/// hash, however their payloads are split into packets: the hash is a
/// function of the concatenated bytes alone.
pub proof fn lemma_equal_content_equal_hash(f1: ProbedFile, f2: ProbedFile)
    requires
        file_bytes(f1) == file_bytes(f2),
    ensures
        file_hash(f1) == file_hash(f2),
{
}

/// A content hash present in the catalog is still present after any walk.
pub proof fn lemma_fold_hash_monotone(
    e: Seq<CatalogEntry>,
    nid: int,
    sid: u8,
    skip: Set<Seq<char>>,
    files: Seq<ProbedFile>,
    h: u32,
)
    requires
        has_hash(e, h),
    ensures
        has_hash(index_fold(e, nid, sid, skip, files).0, h),
    decreases files.len(),
{
    if files.len() > 0 {
        if skip.contains(files[0].filename@) {
            lemma_fold_hash_monotone(e, nid, sid, skip, files.drop_first(), h);
        } else if good_duration(files[0]) {
            let d = entry_data_of(files[0], sid);
            let stepped = upsert_spec(e, nid, d);
            let w = choose|w: int| 0 <= w < e.len() && #[trigger] e[w].hash == h;
            assert(stepped.0[w].hash == h);
            lemma_fold_hash_monotone(stepped.0, stepped.1, sid, skip, files.drop_first(), h);
        }
    }
}

/// An entry present in the catalog is still present, unchanged, after any
/// walk: indexing never mutates or replaces stored entries.
pub proof fn lemma_fold_preserves_entries(
    e: Seq<CatalogEntry>,
    nid: int,
    sid: u8,
    skip: Set<Seq<char>>,
    files: Seq<ProbedFile>,
    x: CatalogEntry,
)
    requires
        e.contains(x),
    ensures
        index_fold(e, nid, sid, skip, files).0.contains(x),
    decreases files.len(),
{
    if files.len() > 0 {
        if skip.contains(files[0].filename@) {
            lemma_fold_preserves_entries(e, nid, sid, skip, files.drop_first(), x);
        } else if good_duration(files[0]) {
            let d = entry_data_of(files[0], sid);
            let stepped = upsert_spec(e, nid, d);
            let w = choose|w: int| 0 <= w < e.len() && e[w] == x;
            assert(stepped.0[w] == x);
            assert(stepped.0.contains(x));
            lemma_fold_preserves_entries(stepped.0, stepped.1, sid, skip, files.drop_first(), x);
        }
    }
}

/// Dedup invariant, first half: a walk never introduces two entries with
/// the same content hash.
pub proof fn lemma_fold_unique_hashes(
    e: Seq<CatalogEntry>,
    nid: int,
    sid: u8,
    skip: Set<Seq<char>>,
    files: Seq<ProbedFile>,
)
    requires
        unique_hashes(e),
    ensures
        unique_hashes(index_fold(e, nid, sid, skip, files).0),
    decreases files.len(),
{
    if files.len() > 0 {
        if skip.contains(files[0].filename@) {
            lemma_fold_unique_hashes(e, nid, sid, skip, files.drop_first());
        } else if good_duration(files[0]) {
            let d = entry_data_of(files[0], sid);
            let stepped = upsert_spec(e, nid, d);
            if !has_hash(e, d.hash) {
                let q = e.push(entry_of(d, nid));
                assert forall|i: int, j: int| 0 <= i < j < q.len() implies #[trigger] q[i].hash
                    != #[trigger] q[j].hash by {
                    if j == q.len() - 1 {
                        assert(q[i] == e[i]);
                    }
                }
            }
            lemma_fold_unique_hashes(stepped.0, stepped.1, sid, skip, files.drop_first());
        }
    }
}

/// Dedup invariant, second half: first writer wins. Once an entry carries
/// a content hash, any further walk keeps exactly that entry for the
/// hash: files with identical decoded audio content collapse to the entry
/// of whichever was processed first, and later duplicates are dropped.
pub proof fn lemma_first_writer_wins(
    e: Seq<CatalogEntry>,
    nid: int,
    sid: u8,
    skip: Set<Seq<char>>,
    files: Seq<ProbedFile>,
    x: CatalogEntry,
)
    requires
        unique_hashes(e),
        e.contains(x),
    ensures
        index_fold(e, nid, sid, skip, files).0.contains(x),
        forall|k: int|
            0 <= k < index_fold(e, nid, sid, skip, files).0.len() && #[trigger] index_fold(
                e,
                nid,
                sid,
                skip,
                files,
            ).0[k].hash == x.hash ==> index_fold(e, nid, sid, skip, files).0[k] == x,
{
    let res = index_fold(e, nid, sid, skip, files).0;
    lemma_fold_preserves_entries(e, nid, sid, skip, files, x);
    lemma_fold_unique_hashes(e, nid, sid, skip, files);
    let ix = choose|ix: int| 0 <= ix < res.len() && res[ix] == x;
    assert forall|k: int| 0 <= k < res.len() && #[trigger] res[k].hash == x.hash implies res[k]
        == x by {
        if k != ix {
            assert(res[ix].hash == res[k].hash);
        }
    }
}

/// Every file a walk actually processes leaves its content hash in the
/// catalog: the one with index `j`, not skipped, is reached when every
/// unskipped file before it has a duration that fits, and is then either
/// inserted or found to be a duplicate of an entry already present.
pub proof fn lemma_indexed_hash_present(
    e: Seq<CatalogEntry>,
    nid: int,
    sid: u8,
    skip: Set<Seq<char>>,
    files: Seq<ProbedFile>,
    j: int,
)
    requires
        0 <= j < files.len(),
        !skip.contains(files[j].filename@),
        good_duration(files[j]),
        forall|k: int|
            0 <= k < j ==> skip.contains(#[trigger] files[k].filename@) || good_duration(files[k]),
    ensures
        has_hash(index_fold(e, nid, sid, skip, files).0, file_hash(files[j])),
    decreases files.len(),
{
    let rest = files.drop_first();
    if j == 0 {
        let d = entry_data_of(files[0], sid);
        let stepped = upsert_spec(e, nid, d);
        if !has_hash(e, d.hash) {
            assert(stepped.0[stepped.0.len() - 1].hash == d.hash);
        }
        assert(has_hash(stepped.0, d.hash));
        lemma_fold_hash_monotone(stepped.0, stepped.1, sid, skip, rest, d.hash);
    } else {
        assert(forall|k: int| 0 <= k < rest.len() ==> rest[k] == #[trigger] files[k + 1]);
        assert(rest[j - 1] == files[j]);
        if skip.contains(files[0].filename@) {
            lemma_indexed_hash_present(e, nid, sid, skip, rest, j - 1);
        } else {
            let d = entry_data_of(files[0], sid);
            let stepped = upsert_spec(e, nid, d);
            lemma_indexed_hash_present(stepped.0, stepped.1, sid, skip, rest, j - 1);
        }
    }
}

/// Idempotence: walking the same fileset twice, in the same mode state,
/// is the same as walking it once — the second walk finds every file's
/// content hash already cataloged and changes nothing.
pub proof fn lemma_index_idempotent(
    e: Seq<CatalogEntry>,
    nid: int,
    sid: u8,
    skip: Set<Seq<char>>,
    files: Seq<ProbedFile>,
)
    ensures
        index_fold(
            index_fold(e, nid, sid, skip, files).0,
            index_fold(e, nid, sid, skip, files).1,
            sid,
            skip,
            files,
        ) == index_fold(e, nid, sid, skip, files),
    decreases files.len(),
{
    if files.len() > 0 {
        let rest = files.drop_first();
        if skip.contains(files[0].filename@) {
            lemma_index_idempotent(e, nid, sid, skip, rest);
        } else if good_duration(files[0]) {
            let d = entry_data_of(files[0], sid);
            let stepped = upsert_spec(e, nid, d);
            let fin = index_fold(stepped.0, stepped.1, sid, skip, rest);
            if !has_hash(e, d.hash) {
                assert(stepped.0[stepped.0.len() - 1].hash == d.hash);
            }
            assert(has_hash(stepped.0, d.hash));
            lemma_fold_hash_monotone(stepped.0, stepped.1, sid, skip, rest, d.hash);
            assert(upsert_spec(fin.0, fin.1, d) == (fin.0, fin.1));
            lemma_index_idempotent(stepped.0, stepped.1, sid, skip, rest);
        }
    }
}

/// A catalog in which no entry belongs to a source counts zero entries
/// for it.
pub proof fn lemma_count_for_source_none(e: Seq<CatalogEntry>, sid: i32)
    requires
        forall|k: int| 0 <= k < e.len() ==> #[trigger] e[k].source_id != sid,
    ensures
        count_for_source_spec(e, sid) == 0,
    decreases e.len(),
{
    if e.len() > 0 {
        let d = e.drop_last();
        assert(forall|k: int| 0 <= k < d.len() ==> d[k] == #[trigger] e[k]);
        assert(e[e.len() - 1] == e.last());
        lemma_count_for_source_none(d, sid);
    }
}

/// A walk over files with pairwise distinct content hashes, none already
/// cataloged and none skipped or oversized, adds exactly one entry per
/// file for the walked source, each carrying a fresh id.
pub proof fn lemma_fold_all_new(
    e: Seq<CatalogEntry>,
    nid: int,
    sid: u8,
    files: Seq<ProbedFile>,
)
    requires
        0 <= nid,
        nid + files.len() <= i32::MAX,
        forall|j: int| 0 <= j < files.len() ==> good_duration(#[trigger] files[j]),
        forall|j: int, k: int|
            0 <= j < k < files.len() ==> file_hash(#[trigger] files[j]) != file_hash(
                #[trigger] files[k],
            ),
        forall|j: int| 0 <= j < files.len() ==> !has_hash(e, file_hash(#[trigger] files[j])),
    ensures
        count_for_source_spec(
            index_fold(e, nid, sid, Set::empty(), files).0,
            sid as i32,
        ) == count_for_source_spec(e, sid as i32) + files.len(),
        forall|k: int|
            0 <= k < index_fold(e, nid, sid, Set::empty(), files).0.len() && #[trigger] index_fold(
                e,
                nid,
                sid,
                Set::empty(),
                files,
            ).0[k].source_id == sid as i32 ==> e.contains(index_fold(e, nid, sid, Set::empty(), files).0[k])
                || index_fold(e, nid, sid, Set::empty(), files).0[k].id >= nid,
    decreases files.len(),
{
    if files.len() > 0 {
        let rest = files.drop_first();
        let d = entry_data_of(files[0], sid);
        let x = entry_of(d, nid);
        assert(!has_hash(e, d.hash));
        let e1 = e.push(x);
        assert(upsert_spec(e, nid, d) == (e1, nid + 1));
        assert(e1.drop_last() =~= e);
        assert(e1.last() == x);
        assert(count_for_source_spec(e1, sid as i32) == count_for_source_spec(e, sid as i32) + 1);
        assert(forall|k: int| 0 <= k < rest.len() ==> rest[k] == #[trigger] files[k + 1]);
        assert forall|j: int| 0 <= j < rest.len() implies !has_hash(
            e1,
            file_hash(#[trigger] rest[j]),
        ) by {
            let h = file_hash(rest[j]);
            assert(file_hash(files[j + 1]) == h);
            assert(h != d.hash);
            assert(forall|w: int| 0 <= w < e.len() ==> #[trigger] e[w].hash != h);
            assert(forall|w: int| 0 <= w < e1.len() - 1 ==> e1[w] == #[trigger] e[w]);
        }
        lemma_fold_all_new(e1, nid + 1, sid, rest);
        let res = index_fold(e, nid, sid, Set::empty(), files).0;
        assert(res == index_fold(e1, nid + 1, sid, Set::empty(), rest).0);
        assert forall|k: int|
            0 <= k < res.len() && #[trigger] res[k].source_id == sid as i32 implies e.contains(
            res[k],
        ) || res[k].id >= nid by {
            if e1.contains(res[k]) && !(res[k].id >= nid) {
                let w = choose|w: int| 0 <= w < e1.len() && e1[w] == res[k];
                assert(w < e1.len() - 1);
                assert(e[w] == res[k]);
            }
        }
    } else {
        assert(count_for_source_spec(
            index_fold(e, nid, sid, Set::empty(), files).0,
            sid as i32,
        ) == count_for_source_spec(e, sid as i32));
    }
}

/// Purge replace: purging a source and then walking a fileset whose
/// content hashes are pairwise distinct, fit in duration, and collide
/// with nothing that survives the purge, leaves the source with exactly
/// one entry per file, and none of its entries from before the purge —
/// every surviving entry of the source carries an id assigned during the
/// walk, while every earlier entry's id lies below `nid`.
pub proof fn lemma_purge_rebuild(e: Seq<CatalogEntry>, nid: int, sid: u8, files: Seq<ProbedFile>)
    requires
        0 <= nid,
        nid + files.len() <= i32::MAX,
        forall|j: int| 0 <= j < files.len() ==> good_duration(#[trigger] files[j]),
        forall|j: int, k: int|
            0 <= j < k < files.len() ==> file_hash(#[trigger] files[j]) != file_hash(
                #[trigger] files[k],
            ),
        forall|j: int|
            0 <= j < files.len() ==> !has_hash(
                purge_spec(e, sid as i32),
                file_hash(#[trigger] files[j]),
            ),
        forall|i: int| 0 <= i < e.len() ==> #[trigger] e[i].id < nid,
    ensures
        count_for_source_spec(
            index_fold(purge_spec(e, sid as i32), nid, sid, Set::empty(), files).0,
            sid as i32,
        ) == files.len(),
        forall|x: CatalogEntry|
            e.contains(x) && x.source_id == sid as i32 ==> !index_fold(
                purge_spec(e, sid as i32),
                nid,
                sid,
                Set::empty(),
                files,
            ).0.contains(x),
{
    let p = purge_spec(e, sid as i32);
    let res = index_fold(p, nid, sid, Set::empty(), files).0;
    lemma_purge_entries(e, sid as i32);
    lemma_count_for_source_none(p, sid as i32);
    lemma_fold_all_new(p, nid, sid, files);
    assert forall|x: CatalogEntry|
        e.contains(x) && x.source_id == sid as i32 implies !res.contains(x) by {
        if res.contains(x) {
            let k = choose|k: int| 0 <= k < res.len() && res[k] == x;
            assert(res[k].source_id == sid as i32);
            assert(p.contains(x) || x.id >= nid);
            if p.contains(x) {
                let w = choose|w: int| 0 <= w < p.len() && p[w] == x;
                assert(p[w].source_id != sid as i32);
            } else {
                let w = choose|w: int| 0 <= w < e.len() && e[w] == x;
                assert(e[w].id < nid);
            }
        }
    }
}

} // verus!
