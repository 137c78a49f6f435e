//! The catalog: the persisted collection of entries describing indexed
//! audio files, with a uniqueness constraint on the content hash, and the
//! hash-to-path resolution used by the streaming layer.

use vstd::prelude::*;
use vstd::string::StringExecFns;

verus! {

/// One catalog entry: a discovered, indexed audio file. The full path of
/// the file is `path + "/" + filename`; `hash` is the Adler-32 checksum of
/// its decoded audio content and the catalog's external identifier; every
/// metadata field is independently optional.
pub struct CatalogEntry {
    pub id: i32,
    pub path: String,
    pub filename: String,
    pub source_id: i32,
    pub hash: u32,
    pub artist: Option<String>,
    pub album_artist: Option<String>,
    pub name: Option<String>,
    pub album: Option<String>,
    pub genres: Option<String>,
    pub track: Option<i32>,
    pub year: Option<i32>,
    pub duration: u32,
}

/// The fields of a catalog entry as the indexing pipeline produces them,
/// before the store assigns the surrogate `id`.
pub struct EntryData {
    pub path: String,
    pub filename: String,
    pub source_id: i32,
    pub hash: u32,
    pub artist: Option<String>,
    pub album_artist: Option<String>,
    pub name: Option<String>,
    pub album: Option<String>,
    pub genres: Option<String>,
    pub track: Option<i32>,
    pub year: Option<i32>,
    pub duration: u32,
}

/// The entry that inserting `d` under the surrogate key `id` produces.
pub open spec fn entry_of(d: EntryData, id: int) -> CatalogEntry {
    CatalogEntry {
        id: id as i32,
        path: d.path,
        filename: d.filename,
        source_id: d.source_id,
        hash: d.hash,
        artist: d.artist,
        album_artist: d.album_artist,
        name: d.name,
        album: d.album,
        genres: d.genres,
        track: d.track,
        year: d.year,
        duration: d.duration,
    }
}

/// Whether some entry of `e` carries the content hash `h`.
pub open spec fn has_hash(e: Seq<CatalogEntry>, h: u32) -> bool {
    exists|i: int| 0 <= i < e.len() && #[trigger] e[i].hash == h
}

/// No two entries of `e` carry the same content hash.
pub open spec fn unique_hashes(e: Seq<CatalogEntry>) -> bool {
    forall|i: int, j: int|
        0 <= i < j < e.len() ==> #[trigger] e[i].hash != #[trigger] e[j].hash
}

/// What remains of `e` once every entry of source `sid` is deleted,
/// with the surviving entries in unchanged order.
pub open spec fn purge_spec(e: Seq<CatalogEntry>, sid: i32) -> Seq<CatalogEntry>
    decreases e.len(),
{
    if e.len() == 0 {
        Seq::empty()
    } else if e.last().source_id == sid {
        purge_spec(e.drop_last(), sid)
    } else {
        purge_spec(e.drop_last(), sid).push(e.last())
    }
}

/// How many entries of `e` belong to source `sid`.
pub open spec fn count_for_source_spec(e: Seq<CatalogEntry>, sid: i32) -> int
    decreases e.len(),
{
    if e.len() == 0 {
        0
    } else {
        count_for_source_spec(e.drop_last(), sid) + if e.last().source_id == sid {
            1int
        } else {
            0int
        }
    }
}

/// The leaf filenames that source `sid` has cataloged in `e`.
pub open spec fn source_filenames(e: Seq<CatalogEntry>, sid: i32) -> Set<Seq<char>> {
    Set::new(
        |f: Seq<char>|
            exists|i: int|
                0 <= i < e.len() && #[trigger] e[i].source_id == sid && e[i].filename@ == f,
    )
}

/// The outcome of an upsert: either the entry was inserted under the id
/// carried here, or an entry with the same content hash already existed
/// and the new one was dropped.
#[derive(Debug, PartialEq, Eq, Structural)]
pub enum UpsertOutcome {
    Inserted(i32),
    Conflict,
}

/// The failure of a hash resolution: no catalog entry carries the hash.
#[derive(Debug, PartialEq, Eq, Structural)]
pub enum ResolveError {
    NotFound,
}

/// The catalog store: the entries in insertion order, plus the next
/// surrogate id to assign.
pub struct Catalog {
    entries: Vec<CatalogEntry>,
    fresh_id: i32,
}

impl View for Catalog {
    type V = Seq<CatalogEntry>;

    closed spec fn view(&self) -> Seq<CatalogEntry> {
        self.entries@
    }
}

impl Catalog {
    /// The next surrogate id the store will assign.
    pub closed spec fn next_id(self) -> int {
        self.fresh_id as int
    }

    /// Well-formedness: content hashes are unique, surrogate ids are
    /// unique and below the next id to assign.
    pub open spec fn wf(self) -> bool {
        &&& unique_hashes(self@)
        &&& forall|i: int| 0 <= i < self@.len() ==> 0 <= #[trigger] self@[i].id < self.next_id()
        &&& forall|i: int, j: int|
            0 <= i < j < self@.len() ==> #[trigger] self@[i].id != #[trigger] self@[j].id
        &&& 0 <= self.next_id()
    }

    /// An empty catalog.
    pub fn new() -> (c: Catalog)
        ensures
            c@ == Seq::<CatalogEntry>::empty(),
            c.next_id() == 0,
            c.wf(),
    {
        let c = Catalog { entries: Vec::new(), fresh_id: 0 };
        proof {
            assert(c@ =~= Seq::<CatalogEntry>::empty());
        }
        c
    }

    /// The index of the entry carrying `h`, if any.
    fn position_of_hash(&self, h: u32) -> (r: Option<usize>)
        ensures
            match r {
                Some(i) => i < self@.len() && self@[i as int].hash == h,
                None => !has_hash(self@, h),
            },
    {
        let mut i: usize = 0;
        while i < self.entries.len()
            invariant
                i <= self@.len(),
                forall|j: int| 0 <= j < i ==> #[trigger] self@[j].hash != h,
            decreases self@.len() - i,
        {
            if self.entries[i].hash == h {
                return Some(i);
            }
            i = i + 1;
        }
        None
    }

    /// Insert `d`, assigning it the next surrogate id; if an entry with the
    /// same content hash already exists, do nothing: the existing entry is
    /// retained unchanged and `d` is discarded (first writer wins).
    pub fn insert_or_ignore(&mut self, d: EntryData) -> (r: UpsertOutcome)
        requires
            old(self).wf(),
            old(self).next_id() < i32::MAX,
        ensures
            final(self).wf(),
            has_hash(old(self)@, d.hash) ==> {
                &&& *final(self) == *old(self)
                &&& r == UpsertOutcome::Conflict
            },
            !has_hash(old(self)@, d.hash) ==> {
                &&& final(self)@ == old(self)@.push(entry_of(d, old(self).next_id()))
                &&& final(self).next_id() == old(self).next_id() + 1
                &&& r == UpsertOutcome::Inserted(old(self).next_id() as i32)
            },
    {
        match self.position_of_hash(d.hash) {
            Some(_) => UpsertOutcome::Conflict,
            None => {
                let id = self.fresh_id;
                self.fresh_id = self.fresh_id + 1;
                let entry = CatalogEntry {
                    id,
                    path: d.path,
                    filename: d.filename,
                    source_id: d.source_id,
                    hash: d.hash,
                    artist: d.artist,
                    album_artist: d.album_artist,
                    name: d.name,
                    album: d.album,
                    genres: d.genres,
                    track: d.track,
                    year: d.year,
                    duration: d.duration,
                };
                self.entries.push(entry);
                UpsertOutcome::Inserted(id)
            },
        }
    }

    /// The entry carrying `h`, if any.
    pub fn find_by_hash(&self, h: u32) -> (r: Option<&CatalogEntry>)
        ensures
            match r {
                Some(e) => exists|i: int|
                    0 <= i < self@.len() && #[trigger] self@[i] == *e && e.hash == h,
                None => !has_hash(self@, h),
            },
            has_hash(self@, h) <==> r is Some,
    {
        match self.position_of_hash(h) {
            Some(i) => Some(&self.entries[i]),
            None => None,
        }
    }

    /// Delete every entry of source `sid`, returning how many were
    /// deleted. The remaining entries keep their order and ids.
    pub fn delete_by_source(&mut self, sid: i32) -> (count: usize)
        ensures
            final(self)@ == purge_spec(old(self)@, sid),
            final(self).next_id() == old(self).next_id(),
            count == old(self)@.len() - final(self)@.len(),
            old(self).wf() ==> final(self).wf(),
    {
        let ghost e0 = self@;
        let mut kept: Vec<CatalogEntry> = Vec::new();
        let mut i: usize = 0;
        proof {
            assert(purge_spec(e0.take(0), sid) =~= Seq::<CatalogEntry>::empty());
        }
        while i < self.entries.len()
            invariant
                i <= e0.len(),
                self@ == e0,
                kept@ == purge_spec(e0.take(i as int), sid),
            decreases e0.len() - i,
        {
            proof {
                assert(e0.take(i + 1).drop_last() =~= e0.take(i as int));
                assert(e0.take(i + 1).last() == e0[i as int]);
            }
            let entry = &self.entries[i];
            if entry.source_id != sid {
                let copy = clone_entry(entry);
                kept.push(copy);
            }
            i = i + 1;
        }
        proof {
            assert(e0.take(e0.len() as int) =~= e0);
            lemma_purge_entries(e0, sid);
        }
        let count = self.entries.len() - kept.len();
        self.entries = kept;
        proof {
            if old(self).wf() {
                lemma_purge_wf(e0, sid, old(self).next_id());
            }
        }
        count
    }

    /// The leaf filenames of every entry of source `sid`.
    pub fn filenames_for_source(&self, sid: i32) -> (r: Vec<String>)
        ensures
            forall|j: int|
                0 <= j < r@.len() ==> source_filenames(self@, sid).contains(#[trigger] r@[j]@),
            forall|f: Seq<char>|
                source_filenames(self@, sid).contains(f) ==> exists|j: int|
                    0 <= j < r@.len() && #[trigger] r@[j]@ == f,
    {
        let mut r: Vec<String> = Vec::new();
        let mut i: usize = 0;
        while i < self.entries.len()
            invariant
                i <= self@.len(),
                forall|j: int|
                    0 <= j < r@.len() ==> source_filenames(self@, sid).contains(#[trigger] r@[j]@),
                forall|k: int|
                    0 <= k < i && #[trigger] self@[k].source_id == sid ==> exists|j: int|
                        0 <= j < r@.len() && #[trigger] r@[j]@ == self@[k].filename@,
            decreases self@.len() - i,
        {
            let ghost r_pre = r@;
            if self.entries[i].source_id == sid {
                r.push(self.entries[i].filename.clone());
            }
            proof {
                assert forall|k: int|
                    0 <= k < i + 1 && #[trigger] self@[k].source_id == sid implies exists|j: int|
                        0 <= j < r@.len() && #[trigger] r@[j]@ == self@[k].filename@ by {
                    if k < i {
                        let w = choose|w: int|
                            0 <= w < r_pre.len() && #[trigger] r_pre[w]@ == self@[k].filename@;
                        assert(r@[w]@ == self@[k].filename@);
                    } else {
                        assert(r@[r@.len() - 1]@ == self@[k].filename@);
                    }
                }
            }
            i = i + 1;
        }
        r
    }

    /// All entries, in insertion order.
    pub fn list_all(&self) -> (r: &Vec<CatalogEntry>)
        ensures
            r@ == self@,
    {
        &self.entries
    }

    /// How many entries the catalog holds.
    pub fn len(&self) -> (n: usize)
        ensures
            n == self@.len(),
    {
        self.entries.len()
    }

    /// How many entries belong to source `sid`.
    pub fn count_for_source(&self, sid: i32) -> (n: usize)
        ensures
            n == count_for_source_spec(self@, sid),
    {
        let ghost e0 = self@;
        let mut n: usize = 0;
        let mut i: usize = 0;
        proof {
            assert(count_for_source_spec(e0.take(0), sid) == 0);
        }
        while i < self.entries.len()
            invariant
                i <= e0.len(),
                self@ == e0,
                n <= i,
                n == count_for_source_spec(e0.take(i as int), sid),
            decreases e0.len() - i,
        {
            proof {
                assert(e0.take(i + 1).drop_last() =~= e0.take(i as int));
                assert(e0.take(i + 1).last() == e0[i as int]);
            }
            if self.entries[i].source_id == sid {
                n = n + 1;
            }
            i = i + 1;
        }
        proof {
            assert(e0.take(e0.len() as int) =~= e0);
        }
        n
    }
}

/// A field-for-field copy of an entry.
fn clone_entry(e: &CatalogEntry) -> (r: CatalogEntry)
    ensures
        r == *e,
{
    CatalogEntry {
        id: e.id,
        path: e.path.clone(),
        filename: e.filename.clone(),
        source_id: e.source_id,
        hash: e.hash,
        artist: clone_opt_string(&e.artist),
        album_artist: clone_opt_string(&e.album_artist),
        name: clone_opt_string(&e.name),
        album: clone_opt_string(&e.album),
        genres: clone_opt_string(&e.genres),
        track: e.track,
        year: e.year,
        duration: e.duration,
    }
}

/// A copy of an optional string.
pub(crate) fn clone_opt_string(o: &Option<String>) -> (r: Option<String>)
    ensures
        r == *o,
{
    match o {
        Some(s) => Some(s.clone()),
        None => None,
    }
}

/// Every entry that survives a purge stood in the catalog before it, and
/// none of the survivors belongs to the purged source.
pub proof fn lemma_purge_entries(e: Seq<CatalogEntry>, sid: i32)
    ensures
        forall|k: int|
            0 <= k < purge_spec(e, sid).len() ==> e.contains(#[trigger] purge_spec(e, sid)[k])
                && purge_spec(e, sid)[k].source_id != sid,
        purge_spec(e, sid).len() <= e.len(),
    decreases e.len(),
{
    if e.len() > 0 {
        lemma_purge_entries(e.drop_last(), sid);
        assert(forall|k: int|
            0 <= k < e.drop_last().len() ==> e.drop_last()[k] == #[trigger] e[k]);
        assert(forall|x: CatalogEntry| e.drop_last().contains(x) ==> e.contains(x));
        if e.last().source_id != sid {
            assert(e.contains(e.last()));
        }
    }
}

/// A purge keeps hashes unique and ids unique and bounded.
pub proof fn lemma_purge_wf(e: Seq<CatalogEntry>, sid: i32, nid: int)
    requires
        unique_hashes(e),
        forall|i: int| 0 <= i < e.len() ==> 0 <= #[trigger] e[i].id < nid,
        forall|i: int, j: int| 0 <= i < j < e.len() ==> #[trigger] e[i].id != #[trigger] e[j].id,
    ensures
        unique_hashes(purge_spec(e, sid)),
        forall|i: int|
            0 <= i < purge_spec(e, sid).len() ==> 0 <= #[trigger] purge_spec(e, sid)[i].id < nid,
        forall|i: int, j: int|
            0 <= i < j < purge_spec(e, sid).len() ==> #[trigger] purge_spec(e, sid)[i].id
                != #[trigger] purge_spec(e, sid)[j].id,
    decreases e.len(),
{
    if e.len() > 0 {
        let d = e.drop_last();
        assert(forall|k: int| 0 <= k < d.len() ==> d[k] == #[trigger] e[k]);
        lemma_purge_wf(d, sid, nid);
        lemma_purge_entries(d, sid);
        if e.last().source_id != sid {
            let p = purge_spec(d, sid);
            let q = p.push(e.last());
            assert forall|i: int, j: int| 0 <= i < j < q.len() implies #[trigger] q[i].hash
                != #[trigger] q[j].hash by {
                if j == q.len() - 1 {
                    assert(q[j] == e.last());
                    assert(d.contains(p[i]));
                    let w = choose|w: int| 0 <= w < d.len() && d[w] == p[i];
                    assert(e[w] == p[i]);
                    assert(e[e.len() - 1] == e.last());
                }
            }
            assert forall|i: int, j: int| 0 <= i < j < q.len() implies #[trigger] q[i].id
                != #[trigger] q[j].id by {
                if j == q.len() - 1 {
                    assert(d.contains(p[i]));
                    let w = choose|w: int| 0 <= w < d.len() && d[w] == p[i];
                    assert(e[w] == p[i]);
                    assert(e[e.len() - 1] == e.last());
                }
            }
            assert forall|i: int| 0 <= i < q.len() implies 0 <= #[trigger] q[i].id < nid by {
                if i == q.len() - 1 {
                    assert(e[e.len() - 1] == e.last());
                }
            }
        }
    }
}

/// Resolve a content hash to the full path of the file it identifies:
/// `path + "/" + filename` of the entry carrying the hash. Fails with
/// `NotFound` exactly when no entry carries the hash; no filesystem access
/// is made.
pub fn path_from_hash(catalog: &Catalog, hash: u32) -> (r: Result<String, ResolveError>)
    ensures
        match r {
            Ok(p) => exists|i: int|
                0 <= i < catalog@.len() && #[trigger] catalog@[i].hash == hash && p@
                    == catalog@[i].path@ + "/"@ + catalog@[i].filename@,
            Err(e) => e == ResolveError::NotFound && !has_hash(catalog@, hash),
        },
        r is Ok <==> has_hash(catalog@, hash),
{
    match catalog.find_by_hash(hash) {
        Some(entry) => {
            let mut p = entry.path.clone();
            p.append("/");
            p.append(entry.filename.as_str());
            Ok(p)
        },
        None => Err(ResolveError::NotFound),
    }
}

} // verus!
