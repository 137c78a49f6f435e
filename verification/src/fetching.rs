//! The indexing pipeline: mode handling, the audio filter of the source
//! walker, and the per-source orchestration that turns probed files into
//! catalog entries.
//!
//! Filesystem traversal, container probing and tag reading happen outside
//! this core; each candidate arrives here as a [`ProbedFile`] holding plain
//! values. Indexing then computes the content hash, normalizes the
//! metadata and upserts the entry, deduplicating by hash.

use vstd::prelude::*;

use crate::config::Source;
use crate::hashing::{adler32, flatten_bytes, hash_packets};
use crate::library::{
    clone_opt_string, entry_of, has_hash, purge_spec, source_filenames, Catalog, CatalogEntry,
    EntryData,
};

verus! {

/// How a source is synchronized against the catalog.
#[derive(Clone, Copy, Debug, PartialEq, Eq, Structural)]
pub enum IndexMode {
    /// Delete every entry of the source, then index everything found.
    Purge,
    /// Skip any file whose leaf name the source has already cataloged.
    New,
    /// Index everything found, with no pre-filtering.
    Initial,
}

/// The failure of an indexing run.
#[derive(Debug, PartialEq, Eq, Structural)]
pub enum IndexError {
    /// A file's duration in milliseconds does not fit the catalog's
    /// 32-bit duration field.
    DurationTooLarge,
}

/// The metadata read from a file's primary tag block, each field
/// independently optional. Track and year arrive as the raw tag values.
pub struct RawTags {
    pub artist: Option<String>,
    pub album_artist: Option<String>,
    pub title: Option<String>,
    pub album: Option<String>,
    pub genre: Option<String>,
    pub track: Option<u32>,
    pub year: Option<u32>,
}

/// One candidate audio file after probing: where it lies (`path` is the
/// directory, `filename` the leaf name), the raw payload bytes of its
/// decoded packets in decode order, its tags, and its duration in
/// milliseconds.
pub struct ProbedFile {
    pub path: String,
    pub filename: String,
    pub packets: Vec<Vec<u8>>,
    pub tags: RawTags,
    pub duration_ms: u64,
}

/// The decoded audio content of a probed file: its packet payloads,
/// concatenated.
pub open spec fn file_bytes(f: ProbedFile) -> Seq<u8> {
    flatten_bytes(f.packets@)
}

/// The content hash of a probed file: the Adler-32 checksum of its
/// decoded audio content.
pub open spec fn file_hash(f: ProbedFile) -> u32 {
    adler32(file_bytes(f))
}

/// A tagged year of literal 0 is a "not set" sentinel of some tag formats
/// and is normalized to an absent year.
pub open spec fn normalize_year(y: Option<u32>) -> Option<i32> {
    match y {
        Option::None => Option::None,
        Option::Some(v) => if v == 0 {
            Option::None
        } else {
            Option::Some(v as i32)
        },
    }
}

/// The raw track number, stored as a signed value.
pub open spec fn stored_track(t: Option<u32>) -> Option<i32> {
    match t {
        Option::None => Option::None,
        Option::Some(v) => Option::Some(v as i32),
    }
}

/// Whether a file's duration fits the catalog's 32-bit field.
pub open spec fn good_duration(f: ProbedFile) -> bool {
    f.duration_ms <= u32::MAX
}

/// The catalog entry fields that indexing `f` for source `sid` produces.
pub open spec fn entry_data_of(f: ProbedFile, sid: u8) -> EntryData {
    EntryData {
        path: f.path,
        filename: f.filename,
        source_id: sid as i32,
        hash: file_hash(f),
        artist: f.tags.artist,
        album_artist: f.tags.album_artist,
        name: f.tags.title,
        album: f.tags.album,
        genres: f.tags.genre,
        track: stored_track(f.tags.track),
        year: normalize_year(f.tags.year),
        duration: f.duration_ms as u32,
    }
}

/// One upsert into the catalog: insert under the next id, or keep the
/// catalog unchanged when the content hash is already present.
pub open spec fn upsert_spec(e: Seq<CatalogEntry>, nid: int, d: EntryData) -> (
    Seq<CatalogEntry>,
    int,
) {
    if has_hash(e, d.hash) {
        (e, nid)
    } else {
        (e.push(entry_of(d, nid)), nid + 1)
    }
}

/// The catalog entries and next id after walking `files` for source `sid`
/// from the state `(e, nid)`: files whose leaf name lies in `skip` are
/// passed over; the first remaining file whose duration does not fit
/// aborts the rest of the walk; every other file is upserted.
pub open spec fn index_fold(
    e: Seq<CatalogEntry>,
    nid: int,
    sid: u8,
    skip: Set<Seq<char>>,
    files: Seq<ProbedFile>,
) -> (Seq<CatalogEntry>, int)
    decreases files.len(),
{
    if files.len() == 0 {
        (e, nid)
    } else if skip.contains(files[0].filename@) {
        index_fold(e, nid, sid, skip, files.drop_first())
    } else if !good_duration(files[0]) {
        (e, nid)
    } else {
        let stepped = upsert_spec(e, nid, entry_data_of(files[0], sid));
        index_fold(stepped.0, stepped.1, sid, skip, files.drop_first())
    }
}

/// The entries left to walk over after the mode's preparation: a purge
/// deletes the source's entries, the other modes touch nothing.
pub open spec fn prepped_entries(e: Seq<CatalogEntry>, mode: IndexMode, sid: u8) -> Seq<
    CatalogEntry,
> {
    if mode == IndexMode::Purge {
        purge_spec(e, sid as i32)
    } else {
        e
    }
}

/// The leaf names that the mode passes over: in incremental mode the
/// names the source had already cataloged, otherwise none.
pub open spec fn skip_set(e: Seq<CatalogEntry>, mode: IndexMode, sid: u8) -> Set<Seq<char>> {
    if mode == IndexMode::New {
        source_filenames(e, sid as i32)
    } else {
        Set::empty()
    }
}

/// Whether a walk of `files` for source `sid` from catalog state `e` runs
/// to completion: every file that the mode does not skip has a duration
/// that fits the catalog's 32-bit field.
pub open spec fn source_walk_ok(
    e: Seq<CatalogEntry>,
    sid: u8,
    mode: IndexMode,
    files: Seq<ProbedFile>,
) -> bool {
    forall|j: int|
        0 <= j < files.len() ==> skip_set(e, mode, sid).contains(#[trigger] files[j].filename@)
            || good_duration(files[j])
}

/// Whether `v` holds a string whose characters equal `s`'s.
fn contains_string(v: &Vec<String>, s: &String) -> (r: bool)
    ensures
        r == exists|j: int| 0 <= j < v@.len() && #[trigger] v@[j]@ == s@,
{
    let mut i: usize = 0;
    while i < v.len()
        invariant
            i <= v@.len(),
            forall|j: int| 0 <= j < i ==> #[trigger] v@[j]@ != s@,
        decreases v@.len() - i,
    {
        if v[i] == *s {
            return true;
        }
        i = i + 1;
    }
    false
}

/// Index one source: prepare the catalog according to `mode`, then walk
/// the probed candidates in order, hashing, normalizing and upserting
/// each. The resulting catalog is exactly `index_fold` over the prepared
/// state; the run succeeds if and only if every file that is not skipped
/// has a duration that fits, and otherwise stops at the first that does
/// not, keeping what was indexed before it.
pub fn index_source(
    catalog: &mut Catalog,
    source: &Source,
    mode: IndexMode,
    files: &Vec<ProbedFile>,
) -> (r: Result<(), IndexError>)
    requires
        old(catalog).wf(),
        old(catalog).next_id() + files@.len() <= i32::MAX,
    ensures
        final(catalog).wf(),
        ({
            let folded = index_fold(
                prepped_entries(old(catalog)@, mode, source.id),
                old(catalog).next_id(),
                source.id,
                skip_set(old(catalog)@, mode, source.id),
                files@,
            );
            final(catalog)@ == folded.0 && final(catalog).next_id() == folded.1
        }),
        r is Ok <==> source_walk_ok(old(catalog)@, source.id, mode, files@),
        r is Err ==> r == Result::<(), IndexError>::Err(IndexError::DurationTooLarge),
{
    let ghost skip = skip_set(old(catalog)@, mode, source.id);
    let mut existing: Vec<String> = Vec::new();
    if mode == IndexMode::Purge {
        catalog.delete_by_source(source.id as i32);
    } else if mode == IndexMode::New {
        existing = catalog.filenames_for_source(source.id as i32);
    }
    let ghost prep_e = catalog@;
    let ghost prep_nid = catalog.next_id();

    let mut i: usize = 0;
    proof {
        assert(files@.skip(0) =~= files@);
    }
    while i < files.len()
        invariant
            i <= files@.len(),
            skip == skip_set(old(catalog)@, mode, source.id),
            prep_e == prepped_entries(old(catalog)@, mode, source.id),
            prep_nid == old(catalog).next_id(),
            catalog.wf(),
            catalog.next_id() <= prep_nid + i,
            prep_nid + files@.len() <= i32::MAX,
            index_fold(catalog@, catalog.next_id(), source.id, skip, files@.skip(i as int))
                == index_fold(prep_e, prep_nid, source.id, skip, files@),
            mode == IndexMode::New ==> forall|f: Seq<char>|
                skip.contains(f) <==> exists|j: int|
                    0 <= j < existing@.len() && #[trigger] existing@[j]@ == f,
            mode != IndexMode::New ==> skip == Set::<Seq<char>>::empty(),
            forall|j: int|
                0 <= j < i ==> skip.contains(#[trigger] files@[j].filename@) || good_duration(
                    files@[j],
                ),
        decreases files@.len() - i,
    {
        let file = &files[i];
        proof {
            assert(files@.skip(i as int)[0] == files@[i as int]);
            assert(files@.skip(i as int).drop_first() =~= files@.skip(i + 1));
        }
        if mode == IndexMode::New {
            if contains_string(&existing, &file.filename) {
                proof {
                    assert(skip.contains(files@[i as int].filename@));
                }
                i = i + 1;
                continue ;
            }
        }
        proof {
            assert(!skip.contains(files@[i as int].filename@));
        }
        if file.duration_ms > u32::MAX as u64 {
            proof {
                assert(index_fold(
                    catalog@,
                    catalog.next_id(),
                    source.id,
                    skip,
                    files@.skip(i as int),
                ) == (catalog@, catalog.next_id()));
                assert(!(skip.contains(files@[i as int].filename@) || good_duration(
                    files@[i as int],
                )));
            }
            return Err(IndexError::DurationTooLarge);
        }
        let hash = hash_packets(&file.packets);
        let track: Option<i32> = match file.tags.track {
            Option::Some(t) => Option::Some(
                #[verifier::truncate]
                (t as i32),
            ),
            Option::None => Option::None,
        };
        let year: Option<i32> = match file.tags.year {
            Option::Some(y) => if y == 0 {
                Option::None
            } else {
                Option::Some(
                    #[verifier::truncate]
                    (y as i32),
                )
            },
            Option::None => Option::None,
        };
        let data = EntryData {
            path: file.path.clone(),
            filename: file.filename.clone(),
            source_id: source.id as i32,
            hash,
            artist: clone_opt_string(&file.tags.artist),
            album_artist: clone_opt_string(&file.tags.album_artist),
            name: clone_opt_string(&file.tags.title),
            album: clone_opt_string(&file.tags.album),
            genres: clone_opt_string(&file.tags.genre),
            track,
            year,
            duration: file.duration_ms as u32,
        };
        proof {
            assert(data == entry_data_of(files@[i as int], source.id));
        }
        catalog.insert_or_ignore(data);
        i = i + 1;
    }
    proof {
        assert(files@.skip(files@.len() as int) =~= Seq::<ProbedFile>::empty());
    }
    Ok(())
}

/// The total number of probed files across all filesets.
pub open spec fn total_files(filesets: Seq<Vec<ProbedFile>>) -> int
    decreases filesets.len(),
{
    if filesets.len() == 0 {
        0
    } else {
        filesets[0]@.len() + total_files(filesets.drop_first())
    }
}

/// The catalog entries and next id after indexing each source against its
/// fileset in turn, every source in the same mode. A source whose walk
/// stops early aborts the remaining sources.
pub open spec fn index_sources_fold(
    e: Seq<CatalogEntry>,
    nid: int,
    sources: Seq<Source>,
    filesets: Seq<Vec<ProbedFile>>,
    mode: IndexMode,
) -> (Seq<CatalogEntry>, int)
    decreases sources.len(),
{
    if sources.len() == 0 {
        (e, nid)
    } else {
        let sid = sources[0].id;
        let folded = index_fold(
            prepped_entries(e, mode, sid),
            nid,
            sid,
            skip_set(e, mode, sid),
            filesets[0]@,
        );
        if !source_walk_ok(e, sid, mode, filesets[0]@) {
            folded
        } else {
            index_sources_fold(folded.0, folded.1, sources.drop_first(), filesets.drop_first(), mode)
        }
    }
}

/// Whether every source's walk runs to completion.
pub open spec fn index_sources_ok(
    e: Seq<CatalogEntry>,
    nid: int,
    sources: Seq<Source>,
    filesets: Seq<Vec<ProbedFile>>,
    mode: IndexMode,
) -> bool
    decreases sources.len(),
{
    if sources.len() == 0 {
        true
    } else {
        let sid = sources[0].id;
        let folded = index_fold(
            prepped_entries(e, mode, sid),
            nid,
            sid,
            skip_set(e, mode, sid),
            filesets[0]@,
        );
        source_walk_ok(e, sid, mode, filesets[0]@) && index_sources_ok(
            folded.0,
            folded.1,
            sources.drop_first(),
            filesets.drop_first(),
            mode,
        )
    }
}

/// A total of file counts is never negative.
pub proof fn lemma_total_files_nonneg(filesets: Seq<Vec<ProbedFile>>)
    ensures
        total_files(filesets) >= 0,
    decreases filesets.len(),
{
    if filesets.len() > 0 {
        lemma_total_files_nonneg(filesets.drop_first());
    }
}

/// The next id never shrinks and grows by at most one per file walked.
pub proof fn lemma_fold_nid_bound(
    e: Seq<CatalogEntry>,
    nid: int,
    sid: u8,
    skip: Set<Seq<char>>,
    files: Seq<ProbedFile>,
)
    ensures
        nid <= index_fold(e, nid, sid, skip, files).1 <= nid + files.len(),
    decreases files.len(),
{
    if files.len() > 0 {
        if skip.contains(files[0].filename@) {
            lemma_fold_nid_bound(e, nid, sid, skip, files.drop_first());
        } else if good_duration(files[0]) {
            let stepped = upsert_spec(e, nid, entry_data_of(files[0], sid));
            lemma_fold_nid_bound(stepped.0, stepped.1, sid, skip, files.drop_first());
        }
    }
}

/// Index every source against its fileset, all in the same mode, each
/// source independently in turn; the first source whose walk fails aborts
/// the ones after it, keeping what was already indexed.
pub fn index_sources(
    catalog: &mut Catalog,
    sources: &Vec<Source>,
    filesets: &Vec<Vec<ProbedFile>>,
    mode: IndexMode,
) -> (r: Result<(), IndexError>)
    requires
        old(catalog).wf(),
        sources@.len() == filesets@.len(),
        old(catalog).next_id() + total_files(filesets@) <= i32::MAX,
    ensures
        final(catalog).wf(),
        ({
            let folded = index_sources_fold(
                old(catalog)@,
                old(catalog).next_id(),
                sources@,
                filesets@,
                mode,
            );
            final(catalog)@ == folded.0 && final(catalog).next_id() == folded.1
        }),
        r is Ok <==> index_sources_ok(
            old(catalog)@,
            old(catalog).next_id(),
            sources@,
            filesets@,
            mode,
        ),
        r is Err ==> r == Result::<(), IndexError>::Err(IndexError::DurationTooLarge),
{
    let mut i: usize = 0;
    proof {
        assert(sources@.skip(0) =~= sources@);
        assert(filesets@.skip(0) =~= filesets@);
    }
    while i < sources.len()
        invariant
            i <= sources@.len(),
            sources@.len() == filesets@.len(),
            catalog.wf(),
            catalog.next_id() + total_files(filesets@.skip(i as int)) <= i32::MAX,
            index_sources_fold(
                catalog@,
                catalog.next_id(),
                sources@.skip(i as int),
                filesets@.skip(i as int),
                mode,
            ) == index_sources_fold(
                old(catalog)@,
                old(catalog).next_id(),
                sources@,
                filesets@,
                mode,
            ),
            index_sources_ok(
                catalog@,
                catalog.next_id(),
                sources@.skip(i as int),
                filesets@.skip(i as int),
                mode,
            ) == index_sources_ok(old(catalog)@, old(catalog).next_id(), sources@, filesets@, mode),
        decreases sources@.len() - i,
    {
        proof {
            assert(sources@.skip(i as int)[0] == sources@[i as int]);
            assert(filesets@.skip(i as int)[0] == filesets@[i as int]);
            assert(sources@.skip(i as int).drop_first() =~= sources@.skip(i + 1));
            assert(filesets@.skip(i as int).drop_first() =~= filesets@.skip(i + 1));
            lemma_total_files_nonneg(filesets@.skip(i + 1));
            lemma_fold_nid_bound(
                prepped_entries(catalog@, mode, sources@[i as int].id),
                catalog.next_id(),
                sources@[i as int].id,
                skip_set(catalog@, mode, sources@[i as int].id),
                filesets@[i as int]@,
            );
        }
        let ghost pre = *catalog;
        let outcome = index_source(catalog, &sources[i], mode, &filesets[i]);
        if outcome.is_err() {
            proof {
                assert(!source_walk_ok(pre@, sources@[i as int].id, mode, filesets@[i as int]@));
            }
            return Err(IndexError::DurationTooLarge);
        }
        i = i + 1;
    }
    proof {
        assert(sources@.skip(sources@.len() as int) =~= Seq::<Source>::empty());
        assert(filesets@.skip(sources@.len() as int) =~= Seq::<Vec<ProbedFile>>::empty());
    }
    Ok(())
}

/// Index every configured source with no pre-filtering, as on a first
/// startup over an empty catalog.
pub fn index_initial(
    catalog: &mut Catalog,
    sources: &Vec<Source>,
    filesets: &Vec<Vec<ProbedFile>>,
) -> (r: Result<(), IndexError>)
    requires
        old(catalog).wf(),
        sources@.len() == filesets@.len(),
        old(catalog).next_id() + total_files(filesets@) <= i32::MAX,
    ensures
        final(catalog).wf(),
        ({
            let folded = index_sources_fold(
                old(catalog)@,
                old(catalog).next_id(),
                sources@,
                filesets@,
                IndexMode::Initial,
            );
            final(catalog)@ == folded.0 && final(catalog).next_id() == folded.1
        }),
        r is Ok <==> index_sources_ok(
            old(catalog)@,
            old(catalog).next_id(),
            sources@,
            filesets@,
            IndexMode::Initial,
        ),
{
    index_sources(catalog, sources, filesets, IndexMode::Initial)
}

/// Index every configured source incrementally: only files whose leaf
/// name the source has not already cataloged are indexed.
pub fn index_new(
    catalog: &mut Catalog,
    sources: &Vec<Source>,
    filesets: &Vec<Vec<ProbedFile>>,
) -> (r: Result<(), IndexError>)
    requires
        old(catalog).wf(),
        sources@.len() == filesets@.len(),
        old(catalog).next_id() + total_files(filesets@) <= i32::MAX,
    ensures
        final(catalog).wf(),
        ({
            let folded = index_sources_fold(
                old(catalog)@,
                old(catalog).next_id(),
                sources@,
                filesets@,
                IndexMode::New,
            );
            final(catalog)@ == folded.0 && final(catalog).next_id() == folded.1
        }),
        r is Ok <==> index_sources_ok(
            old(catalog)@,
            old(catalog).next_id(),
            sources@,
            filesets@,
            IndexMode::New,
        ),
{
    index_sources(catalog, sources, filesets, IndexMode::New)
}

/// Rebuild every configured source: delete its entries, then index
/// everything found under it.
pub fn reindex(
    catalog: &mut Catalog,
    sources: &Vec<Source>,
    filesets: &Vec<Vec<ProbedFile>>,
) -> (r: Result<(), IndexError>)
    requires
        old(catalog).wf(),
        sources@.len() == filesets@.len(),
        old(catalog).next_id() + total_files(filesets@) <= i32::MAX,
    ensures
        final(catalog).wf(),
        ({
            let folded = index_sources_fold(
                old(catalog)@,
                old(catalog).next_id(),
                sources@,
                filesets@,
                IndexMode::Purge,
            );
            final(catalog)@ == folded.0 && final(catalog).next_id() == folded.1
        }),
        r is Ok <==> index_sources_ok(
            old(catalog)@,
            old(catalog).next_id(),
            sources@,
            filesets@,
            IndexMode::Purge,
        ),
{
    index_sources(catalog, sources, filesets, IndexMode::Purge)
}

/// Whether the MIME type guessed from a path names audio. The guess is a
/// pure lookup on the path's extension, so it depends on the path's
/// characters alone.
pub uninterp spec fn audio_mime_guess(path: Seq<char>) -> bool;

/// Relies on mime_guess::from_path and mime::Mime::type_: the MIME type
/// guessed from the path's extension, and whether its top-level type is
/// `audio`; a path without a known extension yields no guess.
#[verifier::external_body]
fn path_guessed_audio(path: &str) -> (r: bool)
    ensures
        r == audio_mime_guess(path@),
{
    match mime_guess::from_path(path).first() {
        Some(m) => m.type_() == mime::AUDIO,
        None => false,
    }
}

/// The subsequence of `paths` whose guessed MIME type is audio, in order.
pub open spec fn audio_only(paths: Seq<String>) -> Seq<String>
    decreases paths.len(),
{
    if paths.len() == 0 {
        Seq::empty()
    } else if audio_mime_guess(paths.last()@) {
        audio_only(paths.drop_last()).push(paths.last())
    } else {
        audio_only(paths.drop_last())
    }
}

/// The source walker's filter: of the regular files found under a source
/// root, keep exactly those whose guessed MIME type is audio, in walk
/// order. Non-audio files are silently dropped, never errors.
pub fn filter_audio_paths(paths: &Vec<String>) -> (r: Vec<String>)
    ensures
        r@ == audio_only(paths@),
{
    let mut r: Vec<String> = Vec::new();
    let mut i: usize = 0;
    proof {
        assert(audio_only(paths@.take(0)) =~= Seq::<String>::empty());
    }
    while i < paths.len()
        invariant
            i <= paths@.len(),
            r@ == audio_only(paths@.take(i as int)),
        decreases paths@.len() - i,
    {
        proof {
            assert(paths@.take(i + 1).drop_last() =~= paths@.take(i as int));
            assert(paths@.take(i + 1).last() == paths@[i as int]);
        }
        if path_guessed_audio(paths[i].as_str()) {
            r.push(paths[i].clone());
        }
        i = i + 1;
    }
    proof {
        assert(paths@.take(paths@.len() as int) =~= paths@);
    }
    r
}

/// Non-audio exclusion: the walker's filter keeps exactly the paths whose
/// guessed MIME type is audio — every kept path stood among the
/// candidates and is guessed audio, and every candidate guessed audio is
/// kept.
pub proof fn lemma_audio_only_exact(paths: Seq<String>)
    ensures
        forall|k: int|
            0 <= k < audio_only(paths).len() ==> paths.contains(#[trigger] audio_only(paths)[k])
                && audio_mime_guess(audio_only(paths)[k]@),
        forall|i: int|
            0 <= i < paths.len() && audio_mime_guess(#[trigger] paths[i]@) ==> audio_only(
                paths,
            ).contains(paths[i]),
    decreases paths.len(),
{
    if paths.len() > 0 {
        let d = paths.drop_last();
        lemma_audio_only_exact(d);
        assert(forall|k: int| 0 <= k < d.len() ==> d[k] == #[trigger] paths[k]);
        assert(forall|x: String| d.contains(x) ==> paths.contains(x));
        assert(paths[paths.len() - 1] == paths.last());
        if audio_mime_guess(paths.last()@) {
            let q = audio_only(d).push(paths.last());
            assert(paths.contains(paths.last()));
            assert(q[q.len() - 1] == paths.last());
            assert forall|i: int|
                0 <= i < paths.len() && audio_mime_guess(#[trigger] paths[i]@) implies q.contains(
                paths[i],
            ) by {
                if i < paths.len() - 1 {
                    assert(audio_only(d).contains(paths[i]));
                    let w = choose|w: int| 0 <= w < audio_only(d).len() && audio_only(d)[w] == paths[i];
                    assert(q[w] == paths[i]);
                } else {
                    assert(q[q.len() - 1] == paths[i]);
                }
            }
        } else {
            assert forall|i: int|
                0 <= i < paths.len() && audio_mime_guess(#[trigger] paths[i]@) implies audio_only(
                paths,
            ).contains(paths[i]) by {
                assert(i < paths.len() - 1);
                assert(audio_only(d).contains(paths[i]));
            }
        }
    }
}

} // verus!
