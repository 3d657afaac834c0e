//! The playlist store: create-or-update with conflict detection, read,
//! and idempotent delete over the date-keyed tree.
//!
//! The store is a model of the slice of the filesystem below the
//! playlists root: a flat collection of files, each a path with either a
//! decodable playlist document or opaque, undecodable content behind it.
//! Every operation is specified against [`lookup`] and the transition
//! functions [`spec_write_at`] and [`spec_delete_at`], so that what a call
//! does to the tree is pinned exactly.

use vstd::prelude::*;
use vstd::string::*;
use crate::document::{DocView, PlaylistDocument};
use crate::layout::{locate, spec_locate, valid_date_key};
use crate::outcome::{Outcome, StoreError};
use crate::path::is_storage_root;

verus! {

/// What one stored file holds: a decodable document, or raw content that
/// does not decode — a file damaged or written by someone else.
pub enum FileContent {
    Document(PlaylistDocument),
    Opaque(String),
}

/// The mathematical value of a file's content.
pub enum ContentV {
    Document(DocView),
    Opaque(Seq<char>),
}

impl View for FileContent {
    type V = ContentV;

    open spec fn view(&self) -> ContentV {
        match self {
            FileContent::Document(d) => ContentV::Document(d@),
            FileContent::Opaque(s) => ContentV::Opaque(s@),
        }
    }
}

/// One file of the tree.
pub struct StoredFile {
    pub path: String,
    pub content: FileContent,
}

/// The mathematical value of one file: its location and content.
pub struct EntryV {
    pub path: Seq<char>,
    pub content: ContentV,
}

impl View for StoredFile {
    type V = EntryV;

    open spec fn view(&self) -> EntryV {
        EntryV { path: self.path@, content: self.content@ }
    }
}

pub open spec fn entries_of(files: Seq<StoredFile>) -> Seq<EntryV> {
    files.map_values(|f: StoredFile| f@)
}

/// The content stored at `p`, if any.
pub open spec fn lookup(fs: Seq<EntryV>, p: Seq<char>) -> Option<ContentV>
    decreases fs.len(),
{
    if fs.len() == 0 {
        None
    } else if fs.last().path == p {
        Some(fs.last().content)
    } else {
        lookup(fs.drop_last(), p)
    }
}

/// No two files share a location.
pub open spec fn distinct_paths(fs: Seq<EntryV>) -> bool {
    forall|i: int, j: int|
        #![trigger fs[i], fs[j]]
        0 <= i < j < fs.len() ==> fs[i].path != fs[j].path
}

/// Functional replacement of the content at `p`; prepends a fresh entry
/// when `p` is absent.
pub open spec fn set_entry(fs: Seq<EntryV>, p: Seq<char>, c: ContentV) -> Seq<EntryV>
    decreases fs.len(),
{
    if fs.len() == 0 {
        seq![EntryV { path: p, content: c }]
    } else if fs.last().path == p {
        fs.drop_last().push(EntryV { path: p, content: c })
    } else {
        set_entry(fs.drop_last(), p, c).push(fs.last())
    }
}

/// Functional removal of every entry at `p`.
pub open spec fn remove_entry(fs: Seq<EntryV>, p: Seq<char>) -> Seq<EntryV>
    decreases fs.len(),
{
    if fs.len() == 0 {
        fs
    } else if fs.last().path == p {
        remove_entry(fs.drop_last(), p)
    } else {
        remove_entry(fs.drop_last(), p).push(fs.last())
    }
}

/// One write step at an explicit location: an identical existing document
/// is a conflict and changes nothing; different or undecodable content is
/// overwritten; an absent file is created.
pub open spec fn spec_write_at(fs: Seq<EntryV>, p: Seq<char>, d: DocView) -> (Seq<EntryV>, Result<
    Outcome,
    StoreError,
>) {
    match lookup(fs, p) {
        Some(c) => if c == ContentV::Document(d) {
            (fs, Err(StoreError::Conflict))
        } else {
            (set_entry(fs, p, ContentV::Document(d)), Ok(Outcome::Updated))
        },
        None => (fs.push(EntryV { path: p, content: ContentV::Document(d) }), Ok(Outcome::Created)),
    }
}

/// One delete step: removing an absent file succeeds as a no-op.
pub open spec fn spec_delete_at(fs: Seq<EntryV>, p: Seq<char>) -> (Seq<EntryV>, Outcome) {
    if lookup(fs, p) is Some {
        (remove_entry(fs, p), Outcome::Deleted)
    } else {
        (fs, Outcome::NoOp)
    }
}

pub proof fn lemma_lookup_push(fs: Seq<EntryV>, e: EntryV, q: Seq<char>)
    ensures
        lookup(fs.push(e), q) == if q == e.path {
            Some(e.content)
        } else {
            lookup(fs, q)
        },
{
    assert(fs.push(e).drop_last() =~= fs);
}

pub proof fn lemma_lookup_set(fs: Seq<EntryV>, p: Seq<char>, c: ContentV, q: Seq<char>)
    ensures
        lookup(set_entry(fs, p, c), q) == if q == p {
            Some(c)
        } else {
            lookup(fs, q)
        },
    decreases fs.len(),
{
    let e = EntryV { path: p, content: c };
    if fs.len() == 0 {
        assert(seq![e] =~= Seq::<EntryV>::empty().push(e));
        lemma_lookup_push(Seq::<EntryV>::empty(), e, q);
    } else if fs.last().path == p {
        lemma_lookup_push(fs.drop_last(), e, q);
    } else {
        lemma_lookup_set(fs.drop_last(), p, c, q);
        lemma_lookup_push(set_entry(fs.drop_last(), p, c), fs.last(), q);
    }
}

pub proof fn lemma_lookup_remove(fs: Seq<EntryV>, p: Seq<char>, q: Seq<char>)
    ensures
        lookup(remove_entry(fs, p), q) == if q == p {
            None
        } else {
            lookup(fs, q)
        },
    decreases fs.len(),
{
    if fs.len() > 0 {
        lemma_lookup_remove(fs.drop_last(), p, q);
        if fs.last().path != p {
            lemma_lookup_push(remove_entry(fs.drop_last(), p), fs.last(), q);
        }
    }
}

pub proof fn lemma_lookup_none_no_match(fs: Seq<EntryV>, p: Seq<char>)
    requires
        lookup(fs, p) is None,
    ensures
        forall|j: int| 0 <= j < fs.len() ==> (#[trigger] fs[j]).path != p,
    decreases fs.len(),
{
    if fs.len() > 0 {
        lemma_lookup_none_no_match(fs.drop_last(), p);
        assert forall|j: int| 0 <= j < fs.len() implies (#[trigger] fs[j]).path != p by {
            if j < fs.len() - 1 {
                assert(fs.drop_last()[j] == fs[j]);
            }
        }
    }
}

/// When the last entry at `p` sits at index `i`, the functional
/// replacement is exactly a pointwise update there.
proof fn lemma_set_entry_is_update(fs: Seq<EntryV>, i: int, p: Seq<char>, c: ContentV)
    requires
        0 <= i < fs.len(),
        fs[i].path == p,
        forall|j: int| i < j < fs.len() ==> (#[trigger] fs[j]).path != p,
    ensures
        set_entry(fs, p, c) == fs.update(i, EntryV { path: p, content: c }),
    decreases fs.len(),
{
    let e = EntryV { path: p, content: c };
    if i == fs.len() - 1 {
        assert(fs.last().path == p);
        assert(fs.drop_last().push(e) =~= fs.update(i, e));
    } else {
        assert(fs.last().path != p);
        assert(fs.drop_last()[i] == fs[i]);
        assert(forall|j: int|
            i < j < fs.drop_last().len() ==> (#[trigger] fs.drop_last()[j]).path != p);
        lemma_set_entry_is_update(fs.drop_last(), i, p, c);
        assert(set_entry(fs, p, c) == fs.drop_last().update(i, e).push(fs.last()));
        assert(fs.drop_last().update(i, e).push(fs.last()) =~= fs.update(i, e));
    }
}

/// Removing a location that no entry has changes nothing.
proof fn lemma_remove_entry_absent(fs: Seq<EntryV>, p: Seq<char>)
    requires
        forall|j: int| 0 <= j < fs.len() ==> (#[trigger] fs[j]).path != p,
    ensures
        remove_entry(fs, p) == fs,
    decreases fs.len(),
{
    if fs.len() > 0 {
        assert(forall|j: int|
            0 <= j < fs.drop_last().len() ==> (#[trigger] fs.drop_last()[j]).path != p);
        lemma_remove_entry_absent(fs.drop_last(), p);
        assert(remove_entry(fs, p) =~= fs);
    }
}

/// When the only entry at `p` sits at index `i`, the functional removal
/// is exactly dropping that index.
proof fn lemma_remove_entry_is_remove(fs: Seq<EntryV>, i: int, p: Seq<char>)
    requires
        0 <= i < fs.len(),
        fs[i].path == p,
        forall|j: int| 0 <= j < fs.len() && j != i ==> (#[trigger] fs[j]).path != p,
    ensures
        remove_entry(fs, p) == fs.remove(i),
    decreases fs.len(),
{
    if i == fs.len() - 1 {
        assert(fs.last().path == p);
        assert(forall|j: int|
            0 <= j < fs.drop_last().len() ==> (#[trigger] fs.drop_last()[j]).path != p);
        lemma_remove_entry_absent(fs.drop_last(), p);
        assert(fs.remove(i) =~= fs.drop_last());
    } else {
        assert(fs.last().path != p);
        assert(fs.drop_last()[i] == fs[i]);
        assert(forall|j: int|
            0 <= j < fs.drop_last().len() && j != i ==> (#[trigger] fs.drop_last()[j]).path != p);
        lemma_remove_entry_is_remove(fs.drop_last(), i, p);
        assert(fs.drop_last().remove(i).push(fs.last()) =~= fs.remove(i));
    }
}

/// The store: the slice of the filesystem below one playlists root.
pub struct PlaylistStore {
    root: String,
    files: Vec<StoredFile>,
}

impl PlaylistStore {
    /// The files below the root, as path/content pairs.
    pub closed spec fn entries(self) -> Seq<EntryV> {
        entries_of(self.files@)
    }

    /// The playlists root this store was configured with.
    pub closed spec fn root_view(self) -> Seq<char> {
        self.root@
    }

    /// Well-formedness: a trusted root and one file per location.
    pub closed spec fn wf(self) -> bool {
        &&& is_storage_root(self.root@)
        &&& distinct_paths(self.entries())
    }

    /// An empty store over a trusted root.
    pub fn new(root: String) -> (r: PlaylistStore)
        requires
            is_storage_root(root@),
        ensures
            r.wf(),
            r.root_view() == root@,
            r.entries() == Seq::<EntryV>::empty(),
    {
        let s = PlaylistStore { root, files: Vec::new() };
        proof {
            assert(s.entries() =~= Seq::<EntryV>::empty());
        }
        s
    }

    /// The index of the file at `path`, scanning from the back so that
    /// the hit is the one `lookup` describes.
    fn find(&self, path: &String) -> (r: Option<usize>)
        ensures
            match r {
                Some(i) => {
                    &&& i < self.entries().len()
                    &&& self.entries()[i as int].path == path@
                    &&& forall|j: int|
                        i < j < self.entries().len() ==> (#[trigger] self.entries()[j]).path
                            != path@
                    &&& lookup(self.entries(), path@) == Some(self.entries()[i as int].content)
                },
                None => lookup(self.entries(), path@) is None,
            },
    {
        let ghost es = self.entries();
        let mut idx: usize = self.files.len();
        proof {
            assert(es.take(es.len() as int) =~= es);
        }
        while idx > 0
            invariant
                es == self.entries(),
                es.len() == self.files@.len(),
                idx <= self.files@.len(),
                lookup(es, path@) == lookup(es.take(idx as int), path@),
                forall|j: int| idx <= j < es.len() ==> (#[trigger] es[j]).path != path@,
            decreases idx,
        {
            idx = idx - 1;
            proof {
                assert(es.take(idx + 1).last() == es[idx as int]);
                assert(es.take(idx + 1).drop_last() =~= es.take(idx as int));
            }
            if self.files[idx].path == *path {
                return Some(idx);
            }
        }
        proof {
            assert(es.take(0) =~= Seq::<EntryV>::empty());
        }
        None
    }

    /// Read the document for `date`.
    ///
    /// A malformed date is a caller error; an absent file reports
    /// `NotFound`; a file whose content does not decode reports
    /// `Corrupt`; otherwise the stored document itself is returned.
    pub fn read(&self, date: &str) -> (r: Result<PlaylistDocument, StoreError>)
        requires
            self.wf(),
        ensures
            match r {
                Ok(d) => valid_date_key(date@) && lookup(
                    self.entries(),
                    spec_locate(self.root_view(), date@),
                ) == Some(ContentV::Document(d@)),
                Err(e) => {
                    ||| (e == StoreError::Malformed && !valid_date_key(date@))
                    ||| (e == StoreError::NotFound && valid_date_key(date@) && lookup(
                        self.entries(),
                        spec_locate(self.root_view(), date@),
                    ) is None)
                    ||| (e == StoreError::Corrupt && valid_date_key(date@) && lookup(
                        self.entries(),
                        spec_locate(self.root_view(), date@),
                    ) matches Some(ContentV::Opaque(_)))
                },
            },
    {
        let path = match locate(self.root.as_str(), date) {
            Ok(p) => p,
            Err(e) => {
                return Err(StoreError::from_date_error(e));
            },
        };
        match self.find(&path) {
            None => Err(StoreError::NotFound),
            Some(i) => match &self.files[i].content {
                FileContent::Document(d) => Ok(d.duplicate()),
                FileContent::Opaque(_) => Err(StoreError::Corrupt),
            },
        }
    }

    /// Write `doc` at an explicit, fully qualified location, used as is.
    ///
    /// The step taken is exactly [`spec_write_at`]: an identical existing
    /// document is reported as a conflict and nothing changes; different
    /// or undecodable existing content is overwritten (`Updated`); an
    /// absent file is created (`Created`).
    pub fn write_at(&mut self, path: String, doc: PlaylistDocument) -> (r: Result<
        Outcome,
        StoreError,
    >)
        requires
            old(self).wf(),
        ensures
            final(self).wf(),
            final(self).root_view() == old(self).root_view(),
            (final(self).entries(), r) == spec_write_at(old(self).entries(), path@, doc@),
    {
        let ghost es = old(self).entries();
        let ghost p = path@;
        match self.find(&path) {
            Some(i) => {
                let equal = match &self.files[i].content {
                    FileContent::Document(d0) => *d0 == doc,
                    FileContent::Opaque(_) => false,
                };
                if equal {
                    Err(StoreError::Conflict)
                } else {
                    let entry = StoredFile { path, content: FileContent::Document(doc) };
                    let _replaced = self.files.remove(i);
                    self.files.insert(i, entry);
                    proof {
                        let e = EntryV { path: p, content: ContentV::Document(doc@) };
                        assert(self.files@ =~= old(self).files@.update(i as int, entry));
                        assert(self.entries() =~= es.update(i as int, e));
                        lemma_set_entry_is_update(es, i as int, p, ContentV::Document(doc@));
                        assert(self.entries() == set_entry(es, p, ContentV::Document(doc@)));
                        assert(distinct_paths(self.entries()));
                    }
                    Ok(Outcome::Updated)
                }
            },
            None => {
                let entry = StoredFile { path, content: FileContent::Document(doc) };
                self.files.push(entry);
                proof {
                    let e = EntryV { path: p, content: ContentV::Document(doc@) };
                    assert(self.entries() =~= es.push(e));
                    lemma_lookup_none_no_match(es, p);
                    assert(distinct_paths(self.entries()));
                }
                Ok(Outcome::Created)
            },
        }
    }

    /// Create or update the document for its own `date` attribute.
    ///
    /// The location is derived from `doc.date` by the layout; the write
    /// itself behaves as [`Self::write_at`] at that location.
    pub fn write(&mut self, doc: PlaylistDocument) -> (r: Result<Outcome, StoreError>)
        requires
            old(self).wf(),
        ensures
            final(self).wf(),
            final(self).root_view() == old(self).root_view(),
            !valid_date_key(doc.date@) ==> r == Err::<Outcome, StoreError>(StoreError::Malformed)
                && final(self).entries() == old(self).entries(),
            valid_date_key(doc.date@) ==> (final(self).entries(), r) == spec_write_at(
                old(self).entries(),
                spec_locate(old(self).root_view(), doc.date@),
                doc@,
            ),
    {
        let path = match locate(self.root.as_str(), doc.date.as_str()) {
            Ok(p) => p,
            Err(_) => {
                return Err(StoreError::Malformed);
            },
        };
        self.write_at(path, doc)
    }

    /// Delete the document for `date`.
    ///
    /// Deleting something already gone is not an error: the step taken is
    /// exactly [`spec_delete_at`], which reports `NoOp` for an absent
    /// file and `Deleted` after removing a present one.
    pub fn delete(&mut self, date: &str) -> (r: Result<Outcome, StoreError>)
        requires
            old(self).wf(),
        ensures
            final(self).wf(),
            final(self).root_view() == old(self).root_view(),
            match r {
                Ok(o) => valid_date_key(date@) && (final(self).entries(), o) == spec_delete_at(
                    old(self).entries(),
                    spec_locate(old(self).root_view(), date@),
                ),
                Err(e) => e == StoreError::Malformed && !valid_date_key(date@)
                    && final(self).entries() == old(self).entries(),
            },
    {
        let ghost es = old(self).entries();
        let path = match locate(self.root.as_str(), date) {
            Ok(p) => p,
            Err(e) => {
                return Err(StoreError::from_date_error(e));
            },
        };
        let ghost p = path@;
        match self.find(&path) {
            None => Ok(Outcome::NoOp),
            Some(i) => {
                let _removed = self.files.remove(i);
                proof {
                    assert(forall|j: int|
                        0 <= j < es.len() && j != i ==> (#[trigger] es[j]).path != p);
                    assert(self.entries() =~= es.remove(i as int));
                    lemma_remove_entry_is_remove(es, i as int, p);
                    assert(self.entries() == remove_entry(es, p));
                    assert forall|a: int, b: int|
                        0 <= a < b < self.entries().len() implies (#[trigger] self.entries()[a]).path
                        != (#[trigger] self.entries()[b]).path by {
                        let ea = if a < i { es[a] } else { es[a + 1] };
                        let eb = if b < i { es[b] } else { es[b + 1] };
                        assert(self.entries()[a] == ea);
                        assert(self.entries()[b] == eb);
                    }
                }
                Ok(Outcome::Deleted)
            },
        }
    }

    /// Install raw, undecodable content at an explicit location, standing
    /// for a file damaged on disk or written outside the store. A later
    /// `read` there reports `Corrupt`; a later `write` overwrites it.
    pub fn put_raw(&mut self, path: String, raw: String)
        requires
            old(self).wf(),
        ensures
            final(self).wf(),
            final(self).root_view() == old(self).root_view(),
            lookup(final(self).entries(), path@) == Some(ContentV::Opaque(raw@)),
            forall|q: Seq<char>|
                q != path@ ==> #[trigger] lookup(final(self).entries(), q) == lookup(
                    old(self).entries(),
                    q,
                ),
    {
        let ghost es = old(self).entries();
        let ghost p = path@;
        let ghost c = ContentV::Opaque(raw@);
        match self.find(&path) {
            Some(i) => {
                let entry = StoredFile { path, content: FileContent::Opaque(raw) };
                let _replaced = self.files.remove(i);
                self.files.insert(i, entry);
                proof {
                    let e = EntryV { path: p, content: c };
                    assert(self.files@ =~= old(self).files@.update(i as int, entry));
                    assert(self.entries() =~= es.update(i as int, e));
                    lemma_set_entry_is_update(es, i as int, p, c);
                    assert(self.entries() == set_entry(es, p, c));
                    assert(distinct_paths(self.entries()));
                    assert forall|q: Seq<char>| true implies #[trigger] lookup(
                        self.entries(),
                        q,
                    ) == if q == p {
                        Some(c)
                    } else {
                        lookup(es, q)
                    } by {
                        lemma_lookup_set(es, p, c, q);
                    }
                }
            },
            None => {
                let entry = StoredFile { path, content: FileContent::Opaque(raw) };
                self.files.push(entry);
                proof {
                    let e = EntryV { path: p, content: c };
                    assert(self.entries() =~= es.push(e));
                    lemma_lookup_none_no_match(es, p);
                    assert(distinct_paths(self.entries()));
                    assert forall|q: Seq<char>| true implies #[trigger] lookup(
                        self.entries(),
                        q,
                    ) == if q == p {
                        Some(c)
                    } else {
                        lookup(es, q)
                    } by {
                        lemma_lookup_push(es, e, q);
                    }
                }
            },
        }
    }
}

/// Writing the same document twice for one date: the first write
/// creates, the second reports a conflict and leaves the tree as it was.
pub proof fn lemma_write_idempotence_is_conflict(fs: Seq<EntryV>, p: Seq<char>, d: DocView)
    requires
        lookup(fs, p) is None,
    ensures
        ({
            let (fs1, r1) = spec_write_at(fs, p, d);
            let (fs2, r2) = spec_write_at(fs1, p, d);
            &&& r1 == Ok::<Outcome, StoreError>(Outcome::Created)
            &&& r2 == Err::<Outcome, StoreError>(StoreError::Conflict)
            &&& fs2 == fs1
        }),
{
    let e = EntryV { path: p, content: ContentV::Document(d) };
    lemma_lookup_push(fs, e, p);
}

/// Writing document A and then a different document B for the same date:
/// the first write creates, the second updates, and afterwards the tree
/// holds B there and is untouched everywhere else.
pub proof fn lemma_write_overwrite_on_change(fs: Seq<EntryV>, p: Seq<char>, d1: DocView, d2: DocView)
    requires
        lookup(fs, p) is None,
        d1 != d2,
    ensures
        ({
            let (fs1, r1) = spec_write_at(fs, p, d1);
            let (fs2, r2) = spec_write_at(fs1, p, d2);
            &&& r1 == Ok::<Outcome, StoreError>(Outcome::Created)
            &&& r2 == Ok::<Outcome, StoreError>(Outcome::Updated)
            &&& lookup(fs2, p) == Some(ContentV::Document(d2))
            &&& forall|q: Seq<char>| q != p ==> #[trigger] lookup(fs2, q) == lookup(fs, q)
        }),
{
    let e1 = EntryV { path: p, content: ContentV::Document(d1) };
    let fs1 = fs.push(e1);
    lemma_lookup_push(fs, e1, p);
    lemma_lookup_set(fs1, p, ContentV::Document(d2), p);
    assert forall|q: Seq<char>| q != p implies #[trigger] lookup(
        set_entry(fs1, p, ContentV::Document(d2)),
        q,
    ) == lookup(fs, q) by {
        lemma_lookup_push(fs, e1, q);
        lemma_lookup_set(fs1, p, ContentV::Document(d2), q);
    }
}

/// Delete is idempotent: deleting an absent file is a no-op, and right
/// after any delete a second delete for the same date is a no-op that
/// changes nothing.
pub proof fn lemma_delete_idempotent(fs: Seq<EntryV>, p: Seq<char>)
    ensures
        ({
            let (fs1, o1) = spec_delete_at(fs, p);
            let (fs2, o2) = spec_delete_at(fs1, p);
            &&& (lookup(fs, p) is None ==> o1 == Outcome::NoOp && fs1 == fs)
            &&& (lookup(fs, p) is Some ==> o1 == Outcome::Deleted)
            &&& o2 == Outcome::NoOp
            &&& fs2 == fs1
        }),
{
    if lookup(fs, p) is Some {
        lemma_lookup_remove(fs, p, p);
    }
}

} // verus!
