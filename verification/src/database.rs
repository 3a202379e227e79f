//! The catalog of artifacts, their reference edges, and the roots that pin
//! them.
//!
//! The catalog is held in memory. A row is never changed or removed once it is
//! inserted; rows and roots are numbered from 1 in the order of insertion.

pub mod model;
pub mod nar_info;

use vstd::prelude::*;
use vstd::string::*;

use crate::database::model::{
    duplicate_opt, is_store_path, opt_view, path_basename,
    path_hash, store_path_error, InvalidStorePath, Nar, NarMeta, NarMetaView, NarStatus, NarView,
    ParseError, Root, RootStatus, RootView, StorePath, StorePathHash,
};
use crate::database::nar_info::{is_ref_hash, ref_path_text, split_refs};
use crate::hash_index::{lemma_position, lemma_position_none, no_duplicates, position, HashIndex};
use crate::text::{push_signed_decimal, signed_decimal};

verus! {

/// The application id that marks a database file as a catalog.
pub const APPLICATION_ID: i32 = 0x2237186b;

/// The version of the schema.
pub const USER_VERSION: i32 = 1;

/// Why an operation on the catalog failed.
#[derive(Debug)]
pub enum Error {
    /// The database is not a catalog of this version, or cannot take more rows.
    InvalidDatabase(String),
    /// A lookup found no row.
    NotFound,
    /// A text in the catalog, or handed to it, could not be read.
    ParseError(ParseError),
}

impl Error {
    /// The error in words.
    pub open spec fn spec_message(self) -> Seq<char> {
        match self {
            Error::InvalidDatabase(message) => "Invalid database: "@ + message@,
            Error::NotFound => "Row not found"@,
            Error::ParseError(e) => "Parse error: "@ + e.spec_message(),
        }
    }

    /// The error in words.
    pub fn to_string(&self) -> (r: String)
        ensures
            r@ == self.spec_message(),
    {
        match self {
            Error::InvalidDatabase(message) => {
                let mut r = "Invalid database: ".to_owned();
                r.append(message.as_str());
                r
            },
            Error::NotFound => "Row not found".to_owned(),
            Error::ParseError(e) => {
                let mut r = "Parse error: ".to_owned();
                let text = e.to_string();
                r.append(text.as_str());
                r
            },
        }
    }
}

/// One row of the catalog: an artifact with its status and its edges.
pub struct NarRowView {
    pub status: NarStatus,
    pub store_path: Seq<char>,
    pub meta: NarMetaView,
    /// The ids of the rows that this one refers to, one for each reference
    /// that the catalog held when the row was inserted.
    pub refs: Seq<int>,
}

/// One root of the catalog, with the ids of the rows it pins.
pub struct RootRowView {
    pub root: RootView,
    pub pinned: Seq<int>,
}

/// What the catalog holds. The row at index `i` has the id `i + 1`.
pub struct DatabaseView {
    pub nars: Seq<NarRowView>,
    pub roots: Seq<RootRowView>,
}

/// The hashes of the rows, in the order of the rows.
pub open spec fn row_hashes(nars: Seq<NarRowView>) -> Seq<Seq<char>> {
    Seq::new(nars.len(), |i: int| path_hash(nars[i].store_path))
}

/// The id of the row whose hash stands in `keys` as `h`: its position plus one.
pub open spec fn id_of_key(keys: Seq<Seq<char>>, h: Seq<char>) -> Option<int> {
    match position(keys, h) {
        Some(i) => Some(i + 1),
        None => None,
    }
}

/// The id of the row with hash `h`, whatever its status.
pub open spec fn nar_id_of_hash(nars: Seq<NarRowView>, h: Seq<char>) -> Option<int> {
    id_of_key(row_hashes(nars), h)
}

/// The id of the row with hash `h`, unless that row is trashed.
pub open spec fn select_nar_id(nars: Seq<NarRowView>, h: Seq<char>) -> Option<int> {
    match position(row_hashes(nars), h) {
        Some(i) => if nars[i].status != NarStatus::Trashed {
            Some(i + 1)
        } else {
            None
        },
        None => None,
    }
}

/// The ids of the given hashes among `keys`, in the order of the hashes; a hash
/// that does not stand in `keys` gives no id.
pub open spec fn resolve_keys(keys: Seq<Seq<char>>, hashes: Seq<Seq<char>>) -> Seq<int>
    decreases hashes.len(),
{
    if hashes.len() == 0 {
        Seq::empty()
    } else {
        let rest = resolve_keys(keys, hashes.drop_last());
        match id_of_key(keys, hashes.last()) {
            Some(id) => rest.push(id),
            None => rest,
        }
    }
}

/// The ids of the rows with the given hashes, in the order of the hashes;
/// a hash without a row gives no id.
pub open spec fn resolve_hashes(nars: Seq<NarRowView>, hashes: Seq<Seq<char>>) -> Seq<int> {
    resolve_keys(row_hashes(nars), hashes)
}

/// Every basename in a references field gives a store path.
pub open spec fn refs_valid(references: Seq<char>) -> bool {
    forall|i: int|
        0 <= i < split_refs(references).len() ==> is_store_path(
            ref_path_text(#[trigger] split_refs(references)[i]),
        )
}

/// The reason for which the first of `pieces` that is no basename of a store
/// path is none; nothing where each is one.
pub open spec fn first_error_in(pieces: Seq<Seq<char>>) -> Option<InvalidStorePath>
    decreases pieces.len(),
{
    if pieces.len() == 0 {
        None
    } else {
        match store_path_error(ref_path_text(pieces[0])) {
            Some(e) => Some(e),
            None => first_error_in(pieces.drop_first()),
        }
    }
}

/// The reason for which the first reference that gives no store path gives
/// none; nothing where every reference gives one.
pub open spec fn first_ref_error(references: Seq<char>) -> Option<InvalidStorePath> {
    first_error_in(split_refs(references))
}

/// There is no first error exactly where every piece is the basename of a
/// store path.
pub proof fn lemma_first_error_in(pieces: Seq<Seq<char>>)
    ensures
        first_error_in(pieces) is None <==> forall|i: int|
            0 <= i < pieces.len() ==> is_store_path(ref_path_text(#[trigger] pieces[i])),
    decreases pieces.len(),
{
    if pieces.len() > 0 {
        let rest = pieces.drop_first();
        lemma_first_error_in(rest);
        if first_error_in(pieces) is None {
            assert forall|i: int| 0 <= i < pieces.len() implies is_store_path(
                ref_path_text(#[trigger] pieces[i]),
            ) by {
                if i > 0 {
                    assert(pieces[i] == rest[i - 1]);
                }
            }
        }
        if forall|i: int|
            0 <= i < pieces.len() ==> is_store_path(ref_path_text(#[trigger] pieces[i])) {
            assert(is_store_path(ref_path_text(pieces[0])));
            assert forall|i: int| 0 <= i < rest.len() implies is_store_path(
                ref_path_text(#[trigger] rest[i]),
            ) by {
                assert(rest[i] == pieces[i + 1]);
            }
        }
    }
}

/// The hashes that a references field names, in order.
pub open spec fn ref_hashes(references: Seq<char>) -> Seq<Seq<char>> {
    Seq::new(
        split_refs(references).len(),
        |i: int| path_hash(ref_path_text(split_refs(references)[i])),
    )
}

/// The catalog after `n` is inserted with `status`: unchanged where a row has
/// the hash of `n`; else one more row, whose edges go to the rows, itself
/// included, that hold the hashes `n` refers to.
pub open spec fn insert_nar(d: DatabaseView, status: NarStatus, n: NarView) -> DatabaseView {
    if position(row_hashes(d.nars), path_hash(n.store_path)) is Some {
        d
    } else {
        let row = NarRowView {
            status,
            store_path: n.store_path,
            meta: n.meta,
            refs: Seq::empty(),
        };
        let refs = resolve_hashes(d.nars.push(row), ref_hashes(n.references));
        DatabaseView { nars: d.nars.push(NarRowView { refs, ..row }), ..d }
    }
}

/// The catalog after each of `ns` is inserted, in order.
pub open spec fn insert_nars(d: DatabaseView, status: NarStatus, ns: Seq<NarView>) -> DatabaseView
    decreases ns.len(),
{
    if ns.len() == 0 {
        d
    } else {
        insert_nars(insert_nar(d, status, ns[0]), status, ns.drop_first())
    }
}

/// The catalog holds a row with the hash of `n`.
pub open spec fn is_held(d: DatabaseView, n: NarView) -> bool {
    position(row_hashes(d.nars), path_hash(n.store_path)) is Some
}

/// Why the insertion of `ns`, in order, is refused: the reason for which the
/// first reference that gives no store path gives none, in the first
/// artifact that would get a row and has such a reference. The references
/// of an artifact that is skipped, because a row has its hash, are not
/// looked at.
pub open spec fn first_new_ref_error(d: DatabaseView, status: NarStatus, ns: Seq<NarView>) -> Option<
    InvalidStorePath,
>
    decreases ns.len(),
{
    if ns.len() == 0 {
        None
    } else if !is_held(d, ns[0]) && first_ref_error(ns[0].references) is Some {
        first_ref_error(ns[0].references)
    } else {
        first_new_ref_error(insert_nar(d, status, ns[0]), status, ns.drop_first())
    }
}

/// The references field of a row: the basenames of the rows it refers to,
/// separated by single spaces.
pub open spec fn refs_text(nars: Seq<NarRowView>, refs: Seq<int>) -> Seq<char>
    decreases refs.len(),
{
    if refs.len() == 0 {
        Seq::empty()
    } else if refs.len() == 1 {
        path_basename(nars[refs[0] - 1].store_path)
    } else {
        refs_text(nars, refs.drop_last()) + " "@ + path_basename(nars[refs.last() - 1].store_path)
    }
}

/// The artifact that the row at index `i` describes.
pub open spec fn row_nar(nars: Seq<NarRowView>, i: int) -> NarView {
    NarView {
        store_path: nars[i].store_path,
        meta: nars[i].meta,
        references: refs_text(nars, nars[i].refs),
    }
}

/// The rows among the first `upto` that have `status`, each with its id, in
/// the order of the catalog.
pub open spec fn select_all(nars: Seq<NarRowView>, status: NarStatus, upto: int) -> Seq<
    (int, NarView),
>
    decreases upto,
{
    if upto <= 0 {
        Seq::empty()
    } else {
        let rest = select_all(nars, status, upto - 1);
        if nars[upto - 1].status == status {
            rest.push((upto, row_nar(nars, upto - 1)))
        } else {
            rest
        }
    }
}

/// The catalog after a root is inserted that pins the rows with the given
/// hashes.
pub open spec fn insert_root_row(d: DatabaseView, root: RootView, hashes: Seq<Seq<char>>) -> DatabaseView {
    DatabaseView {
        roots: d.roots.push(RootRowView { root, pinned: resolve_hashes(d.nars, hashes) }),
        ..d
    }
}

/// What holds of every catalog: each row is a store path, no two rows share
/// a hash, every edge of a row ends at that row or at one
/// that was inserted before it, and every edge of a root ends at a row of
/// the catalog.
pub open spec fn catalog_inv(d: DatabaseView) -> bool {
    &&& forall|i: int|
        0 <= i < d.nars.len() ==> {
            &&& is_store_path(#[trigger] d.nars[i].store_path)
        }
    &&& no_duplicates(row_hashes(d.nars))
    &&& forall|i: int, k: int|
        0 <= i < d.nars.len() && 0 <= k < d.nars[i].refs.len() ==> 1 <= #[trigger] d.nars[i].refs[k]
            <= i + 1
    &&& forall|i: int, k: int|
        0 <= i < d.roots.len() && 0 <= k < d.roots[i].pinned.len() ==> 1
            <= #[trigger] d.roots[i].pinned[k] <= d.nars.len()
}

/// Every id that `resolve_keys` gives is a position in `keys`, plus one.
pub proof fn lemma_resolve_in_range(keys: Seq<Seq<char>>, hashes: Seq<Seq<char>>)
    ensures
        forall|k: int|
            0 <= k < resolve_keys(keys, hashes).len() ==> 1 <= #[trigger] resolve_keys(
                keys,
                hashes,
            )[k] <= keys.len(),
    decreases hashes.len(),
{
    if hashes.len() > 0 {
        let rest = resolve_keys(keys, hashes.drop_last());
        lemma_resolve_in_range(keys, hashes.drop_last());
        lemma_position_none(keys, hashes.last());
        let all = resolve_keys(keys, hashes);
        assert forall|k: int| 0 <= k < all.len() implies 1 <= #[trigger] all[k] <= keys.len() by {
            if k < rest.len() {
                assert(all[k] == rest[k]);
            }
        }
    }
}

/// Where the catalog holds every hash asked for, each hash gets its id.
pub proof fn lemma_resolve_all(keys: Seq<Seq<char>>, hashes: Seq<Seq<char>>)
    requires
        forall|k: int| 0 <= k < hashes.len() ==> position(keys, #[trigger] hashes[k]) is Some,
    ensures
        resolve_keys(keys, hashes).len() == hashes.len(),
        forall|k: int|
            0 <= k < hashes.len() ==> #[trigger] resolve_keys(keys, hashes)[k] == position(
                keys,
                hashes[k],
            )->0 + 1,
    decreases hashes.len(),
{
    if hashes.len() > 0 {
        let rest = hashes.drop_last();
        assert forall|k: int| 0 <= k < rest.len() implies position(keys, #[trigger] rest[k]) is Some by {
            assert(rest[k] == hashes[k]);
        }
        lemma_resolve_all(keys, rest);
        assert(position(keys, hashes[hashes.len() - 1]) is Some);
        let all = resolve_keys(keys, hashes);
        assert forall|k: int| 0 <= k < hashes.len() implies #[trigger] all[k] == position(
            keys,
            hashes[k],
        )->0 + 1 by {
            if k < rest.len() {
                assert(all[k] == resolve_keys(keys, rest)[k]);
                assert(rest[k] == hashes[k]);
            }
        }
    }
}

struct NarRow {
    status: NarStatus,
    store_path: StorePath,
    meta: NarMeta,
    refs: Vec<i64>,
}

struct RootRow {
    channel_url: Option<String>,
    cache_url: Option<String>,
    git_revision: Option<String>,
    fetch_time: Option<String>,
    status: RootStatus,
    pinned: Vec<i64>,
}

/// The ids of a list, as integers.
pub open spec fn ids_view(v: Seq<i64>) -> Seq<int> {
    Seq::new(v.len(), |k: int| v[k] as int)
}

impl View for NarRow {
    type V = NarRowView;

    closed spec fn view(&self) -> NarRowView {
        NarRowView {
            status: self.status,
            store_path: self.store_path@,
            meta: self.meta@,
            refs: ids_view(self.refs@),
        }
    }
}

impl View for RootRow {
    type V = RootRowView;

    closed spec fn view(&self) -> RootRowView {
        RootRowView {
            root: RootView {
                channel_url: opt_view(self.channel_url),
                cache_url: opt_view(self.cache_url),
                git_revision: opt_view(self.git_revision),
                fetch_time: opt_view(self.fetch_time),
                status: self.status,
            },
            pinned: ids_view(self.pinned@),
        }
    }
}

/// The catalog.
pub struct Database {
    nars: Vec<NarRow>,
    roots: Vec<RootRow>,
    by_hash: HashIndex,
}

impl View for Database {
    type V = DatabaseView;

    closed spec fn view(&self) -> DatabaseView {
        DatabaseView {
            nars: Seq::new(self.nars@.len(), |i: int| self.nars@[i]@),
            roots: Seq::new(self.roots@.len(), |i: int| self.roots@[i]@),
        }
    }
}

impl Database {
    /// The invariant of the representation.
    pub closed spec fn wf(&self) -> bool {
        &&& self.by_hash.wf()
        &&& self.by_hash@ == row_hashes(self@.nars)
        &&& self.nars@.len() < i64::MAX
        &&& self.roots@.len() < i64::MAX
        &&& catalog_inv(self@)
    }

    /// A well-formed catalog satisfies `catalog_inv`: in particular every
    /// edge ends at a row that exists, and the order of the rows is a
    /// topological order of the edges between them, edges of a row to
    /// itself apart.
    pub proof fn lemma_catalog_inv(&self)
        requires
            self.wf(),
        ensures
            catalog_inv(self@),
    {
    }

    /// An empty catalog, held in memory.
    pub fn open_in_memory() -> (r: Result<Database, Error>)
        ensures
            r matches Ok(db) && db.wf() && db@.nars.len() == 0 && db@.roots.len() == 0,
    {
        let db = Database { nars: Vec::new(), roots: Vec::new(), by_hash: HashIndex::new() };
        assert(db.by_hash@ =~= row_hashes(db@.nars));
        Ok(db)
    }

    /// The number of rows.
    pub fn nar_count(&self) -> (n: usize)
        ensures
            n == self@.nars.len(),
    {
        self.nars.len()
    }

    /// The number of roots.
    pub fn root_count(&self) -> (n: usize)
        ensures
            n == self@.roots.len(),
    {
        self.roots.len()
    }

    /// The id of the row with the given hash, unless that row is trashed.
    pub fn select_nar_id_by_hash(&self, hash: &StorePathHash) -> (r: Result<Option<i64>, Error>)
        requires
            self.wf(),
        ensures
            r matches Ok(found) && match found {
                Some(id) => select_nar_id(self@.nars, hash@) == Some(id as int),
                None => select_nar_id(self@.nars, hash@) is None,
            },
    {
        assert(self.by_hash@.len() == self.nars@.len());
        match self.by_hash.position(hash) {
            Some(i) => {
                assert(self@.nars[i as int].status == self.nars@[i as int].status);
                match self.nars[i].status {
                    NarStatus::Trashed => Ok(None),
                    _ => Ok(Some(i as i64 + 1)),
                }
            },
            None => Ok(None),
        }
    }

}

/// The ids of the given hashes in `index`, in order.
fn resolve_in(index: &HashIndex, hashes: &Vec<StorePathHash>) -> (r: Vec<i64>)
    requires
        index.wf(),
        index@.len() < i64::MAX,
    ensures
        ids_view(r@) == resolve_keys(index@, hash_texts(hashes@)),
{
    let mut out: Vec<i64> = Vec::new();
    let mut k: usize = 0;
    let ghost texts = hash_texts(hashes@);
    assert(texts.subrange(0, 0) =~= Seq::<Seq<char>>::empty());
    assert(ids_view(out@) =~= Seq::<int>::empty());
    while k < hashes.len()
        invariant
            index.wf(),
            index@.len() < i64::MAX,
            k <= hashes@.len(),
            texts == hash_texts(hashes@),
            ids_view(out@) == resolve_keys(index@, texts.subrange(0, k as int)),
        decreases hashes.len() - k,
    {
        let ghost before = ids_view(out@);
        let found = index.position(&hashes[k]);
        proof {
            let t = texts.subrange(0, k + 1);
            assert(t.drop_last() =~= texts.subrange(0, k as int));
            assert(t.last() == hashes@[k as int]@);
        }
        match found {
            Some(i) => {
                out.push(i as i64 + 1);
                assert(ids_view(out@) =~= before.push(i + 1));
            },
            None => {},
        }
        k += 1;
    }
    assert(texts.subrange(0, hashes@.len() as int) =~= texts);
    out
}

/// The hashes that `nar` refers to, or the reason for which the first
/// basename that gives no store path gives none.
pub fn checked_ref_hashes(nar: &Nar) -> (r: Result<Vec<StorePathHash>, InvalidStorePath>)
    ensures
        match r {
            Ok(hashes) => refs_valid(nar.references@) && first_ref_error(nar.references@) is None
                && hash_texts(hashes@) == ref_hashes(nar.references@),
            Err(e) => !refs_valid(nar.references@) && first_ref_error(nar.references@) == Some(e),
        },
{
    let items = nar.ref_hashes();
    let ghost pieces = split_refs(nar.references@);
    let mut out: Vec<StorePathHash> = Vec::new();
    let mut i: usize = 0;
    proof {
        lemma_first_error_in(pieces);
        assert(pieces.subrange(0, pieces.len() as int) =~= pieces);
    }
    while i < items.len()
        invariant
            i <= items@.len(),
            items@.len() == pieces.len(),
            pieces == split_refs(nar.references@),
            first_error_in(pieces.subrange(i as int, pieces.len() as int)) == first_error_in(
                pieces,
            ),
            forall|k: int|
                0 <= k < items@.len() ==> is_ref_hash(#[trigger] items@[k], ref_path_text(pieces[k])),
            out@.len() == i,
            forall|k: int|
                0 <= k < i ==> is_store_path(ref_path_text(#[trigger] pieces[k])) && out@[k]@
                    == path_hash(ref_path_text(pieces[k])),
        decreases items.len() - i,
    {
        proof {
            let rest = pieces.subrange(i as int, pieces.len() as int);
            assert(rest[0] == pieces[i as int]);
            assert(rest.drop_first() =~= pieces.subrange(i + 1, pieces.len() as int));
        }
        match items[i] {
            Ok(h) => {
                out.push(h);
            },
            Err(e) => {
                assert(!is_store_path(ref_path_text(pieces[i as int])));
                return Err(e);
            },
        }
        i += 1;
    }
    proof {
        lemma_first_error_in(pieces);
    }
    assert(hash_texts(out@) =~= ref_hashes(nar.references@));
    Ok(out)
}

impl Database {
    /// Inserts `nar`, whose references are the given hashes, unless a row has
    /// its hash; returns the id of the row with that hash.
    fn insert_row(&mut self, status: NarStatus, nar: &Nar, hashes: &Vec<StorePathHash>) -> (id:
        i64)
        requires
            old(self).wf(),
            is_held(old(self)@, nar@) || (hash_texts(hashes@) == ref_hashes(nar.references@)
                && old(self)@.nars.len() + 1 < i64::MAX),
        ensures
            final(self).wf(),
            final(self)@ == insert_nar(old(self)@, status, nar@),
            nar_id_of_hash(final(self)@.nars, path_hash(nar.store_path@)) == Some(id as int),
    {
        let hash = nar.store_path.hash();
        assert(self.by_hash@.len() == self.nars@.len());
        match self.by_hash.position(&hash) {
            Some(i) => {
                return i as i64 + 1;
            },
            None => {},
        }
        let ghost old_view = self@;
        let ghost old_keys = self.by_hash@;
        let store_path = nar.store_path.duplicate();
        let _ = nar.store_path.path();
        let meta = nar.meta.duplicate();
        self.by_hash.push(hash);
        let refs = resolve_in(&self.by_hash, hashes);
        let row = NarRow { status, store_path, meta, refs };
        let id = self.nars.len() as i64 + 1;
        self.nars.push(row);
        proof {
            let h = path_hash(nar.store_path@);
            let row0 = NarRowView {
                status,
                store_path: nar.store_path@,
                meta: nar.meta@,
                refs: Seq::empty(),
            };
            let keys1 = row_hashes(old_view.nars.push(row0));
            assert(keys1 =~= old_keys.push(h));
            assert(self.by_hash@ == keys1);
            let want = insert_nar(old_view, status, nar@);
            assert(self@.roots =~= old_view.roots);
            assert(self@.nars =~= want.nars);
            assert(row_hashes(self@.nars) =~= keys1);
            self.by_hash.lemma_no_duplicates();
            lemma_resolve_in_range(keys1, hash_texts(hashes@));
            lemma_position(keys1, h, old_keys.len() as int);
            assert(catalog_inv(self@)) by {
                assert forall|i: int| 0 <= i < self@.nars.len() implies {
                    &&& is_store_path(#[trigger] self@.nars[i].store_path)
                } by {
                    if i < old_view.nars.len() {
                        assert(self@.nars[i] == old_view.nars[i]);
                    }
                }
                assert forall|i: int, k: int|
                    0 <= i < self@.nars.len() && 0 <= k < self@.nars[i].refs.len() implies 1
                        <= #[trigger] self@.nars[i].refs[k] <= i + 1 by {
                    if i < old_view.nars.len() {
                        assert(self@.nars[i] == old_view.nars[i]);
                        assert(1 <= old_view.nars[i].refs[k] <= i + 1);
                    }
                }
                assert forall|i: int, k: int|
                    0 <= i < self@.roots.len() && 0 <= k < self@.roots[i].pinned.len() implies 1
                        <= #[trigger] self@.roots[i].pinned[k] <= self@.nars.len() by {
                    assert(self@.roots[i] == old_view.roots[i]);
                    assert(1 <= old_view.roots[i].pinned[k] <= old_view.nars.len());
                }
            }
        }
        id
    }
}

/// What a query gives: each entry is a row that has the status, with its
/// id; the ids rise; and every row that has the status is among them.
pub proof fn lemma_select_all(nars: Seq<NarRowView>, status: NarStatus, upto: int)
    requires
        0 <= upto <= nars.len(),
    ensures
        forall|k: int|
            0 <= k < select_all(nars, status, upto).len() ==> {
                let e = #[trigger] select_all(nars, status, upto)[k];
                &&& 1 <= e.0 <= upto
                &&& nars[e.0 - 1].status == status
                &&& e.1 == row_nar(nars, e.0 - 1)
            },
        forall|k1: int, k2: int|
            0 <= k1 < k2 < select_all(nars, status, upto).len() ==> (#[trigger] select_all(
                nars,
                status,
                upto,
            )[k1]).0 < (#[trigger] select_all(nars, status, upto)[k2]).0,
        forall|i: int|
            0 <= i < upto && (#[trigger] nars[i]).status == status ==> exists|k: int|
                0 <= k < select_all(nars, status, upto).len() && (#[trigger] select_all(
                    nars,
                    status,
                    upto,
                )[k]).0 == i + 1,
    decreases upto,
{
    if upto > 0 {
        lemma_select_all(nars, status, upto - 1);
        let rest = select_all(nars, status, upto - 1);
        let all = select_all(nars, status, upto);
        assert forall|k: int| 0 <= k < all.len() implies {
            let e = #[trigger] all[k];
            &&& 1 <= e.0 <= upto
            &&& nars[e.0 - 1].status == status
            &&& e.1 == row_nar(nars, e.0 - 1)
        } by {
            if k < rest.len() {
                assert(all[k] == rest[k]);
            }
        }
        assert forall|k1: int, k2: int| 0 <= k1 < k2 < all.len() implies (#[trigger] all[k1]).0 < (
        #[trigger] all[k2]).0 by {
            assert(all[k1] == rest[k1]);
            if k2 < rest.len() {
                assert(all[k2] == rest[k2]);
            }
        }
        assert forall|i: int| 0 <= i < upto && (#[trigger] nars[i]).status == status implies exists|
            k: int,
        |
            0 <= k < all.len() && (#[trigger] all[k]).0 == i + 1 by {
            if i < upto - 1 {
                let k = choose|k: int| 0 <= k < rest.len() && (#[trigger] rest[k]).0 == i + 1;
                assert(all[k] == rest[k]);
            } else {
                assert(all[rest.len() as int].0 == upto);
            }
        }
    }
}

/// The views of a list of artifacts.
pub open spec fn nar_views(nars: Seq<Nar>) -> Seq<NarView> {
    Seq::new(nars.len(), |i: int| nars[i]@)
}

/// The catalog can take `n` more rows without running out of ids.
pub open spec fn has_room(d: DatabaseView, n: nat) -> bool {
    d.nars.len() + n < i64::MAX
}

/// The catalog can take one more root without running out of ids.
pub open spec fn has_room_for_root(d: DatabaseView) -> bool {
    d.roots.len() + 1 < i64::MAX
}

/// The rows that a query gave, as the model has them.
pub open spec fn selected_views(rows: Seq<(i64, Nar)>) -> Seq<(int, NarView)> {
    Seq::new(rows.len(), |i: int| (rows[i].0 as int, rows[i].1@))
}

/// The message for a database whose header reads `(app_id, user_ver)`.
pub open spec fn invalid_version_message(app_id: i32, user_ver: i32) -> Seq<char> {
    "Invalid database, expect (app_id, user_ver): ("@ + signed_decimal(APPLICATION_ID as int)
        + ", "@ + signed_decimal(USER_VERSION as int) + "), found ("@ + signed_decimal(
        app_id as int,
    ) + ", "@ + signed_decimal(user_ver as int) + ")"@
}

/// Inserting at most adds one row, and never changes the roots.
pub proof fn lemma_insert_nar_len(d: DatabaseView, status: NarStatus, n: NarView)
    ensures
        d.nars.len() <= insert_nar(d, status, n).nars.len() <= d.nars.len() + 1,
        insert_nar(d, status, n).roots == d.roots,
{
}

/// Inserting an artifact a second time changes nothing: of two insertions
/// of one artifact, one inserts it and the other leaves the catalog as it is.
pub proof fn lemma_insert_nar_idempotent(d: DatabaseView, status: NarStatus, n: NarView)
    requires
        is_store_path(n.store_path),
    ensures
        insert_nar(insert_nar(d, status, n), status, n) == insert_nar(d, status, n),
        insert_nars(d, status, seq![n, n]) == insert_nars(d, status, seq![n]),
{
    lemma_insert_nar_present_any(d, status, n);
    let once = insert_nar(d, status, n);
    let two = seq![n, n];
    let one = seq![n];
    assert(two.drop_first() =~= one);
    assert(one.drop_first() =~= Seq::<NarView>::empty());
    assert(insert_nars(once, status, one.drop_first()) == once);
    assert(insert_nars(insert_nar(once, status, n), status, one.drop_first()) == insert_nar(
        once,
        status,
        n,
    ));
    assert(insert_nars(d, status, one) == once);
    assert(insert_nars(once, status, one) == insert_nar(once, status, n));
    assert(insert_nars(d, status, two) == insert_nars(once, status, two.drop_first()));
}

/// A hash that the catalog holds is still held after an insertion.
pub proof fn lemma_insert_nar_keeps(d: DatabaseView, status: NarStatus, n: NarView, h: Seq<char>)
    requires
        position(row_hashes(d.nars), h) is Some,
    ensures
        position(row_hashes(insert_nar(d, status, n).nars), h) is Some,
{
    let keys = row_hashes(d.nars);
    lemma_position_none(keys, h);
    let i = position(keys, h)->0;
    let after = row_hashes(insert_nar(d, status, n).nars);
    assert(after[i] == h);
}

/// Inserting artifacts that the catalog holds already changes nothing.
pub proof fn lemma_insert_nars_held(d: DatabaseView, status: NarStatus, ns: Seq<NarView>)
    requires
        forall|i: int|
            0 <= i < ns.len() ==> position(
                row_hashes(d.nars),
                path_hash((#[trigger] ns[i]).store_path),
            ) is Some,
    ensures
        insert_nars(d, status, ns) == d,
    decreases ns.len(),
{
    if ns.len() > 0 {
        let rest = ns.drop_first();
        assert(position(row_hashes(d.nars), path_hash(ns[0].store_path)) is Some);
        assert forall|i: int| 0 <= i < rest.len() implies position(
            row_hashes(d.nars),
            path_hash((#[trigger] rest[i]).store_path),
        ) is Some by {
            assert(rest[i] == ns[i + 1]);
        }
        lemma_insert_nars_held(d, status, rest);
    }
}

/// After artifacts are inserted the catalog holds each of them, and all it
/// held before.
pub proof fn lemma_insert_nars_holds(d: DatabaseView, status: NarStatus, ns: Seq<NarView>)
    requires
        forall|i: int| 0 <= i < ns.len() ==> is_store_path((#[trigger] ns[i]).store_path),
    ensures
        forall|i: int|
            0 <= i < ns.len() ==> position(
                row_hashes(insert_nars(d, status, ns).nars),
                path_hash((#[trigger] ns[i]).store_path),
            ) is Some,
        forall|h: Seq<char>|
            position(row_hashes(d.nars), h) is Some ==> position(
                #[trigger] row_hashes(insert_nars(d, status, ns).nars),
                h,
            ) is Some,
    decreases ns.len(),
{
    if ns.len() > 0 {
        let rest = ns.drop_first();
        let d1 = insert_nar(d, status, ns[0]);
        let last = insert_nars(d, status, ns);
        assert forall|i: int| 0 <= i < rest.len() implies is_store_path(
            (#[trigger] rest[i]).store_path,
        ) by {
            assert(rest[i] == ns[i + 1]);
        }
        lemma_insert_nars_holds(d1, status, rest);
        assert(last == insert_nars(d1, status, rest));
        lemma_insert_nar_present_any(d, status, ns[0]);
        assert forall|i: int| 0 <= i < ns.len() implies position(
            row_hashes(last.nars),
            path_hash((#[trigger] ns[i]).store_path),
        ) is Some by {
            if i == 0 {
                assert(position(row_hashes(d1.nars), path_hash(ns[0].store_path)) is Some);
            } else {
                assert(rest[i - 1] == ns[i]);
            }
        }
        assert forall|h: Seq<char>| position(row_hashes(d.nars), h) is Some implies position(
            #[trigger] row_hashes(last.nars),
            h,
        ) is Some by {
            lemma_insert_nar_keeps(d, status, ns[0], h);
        }
    }
}

/// After an artifact is inserted the catalog holds a row with its hash.
proof fn lemma_insert_nar_present_any(d: DatabaseView, status: NarStatus, n: NarView)
    requires
        is_store_path(n.store_path),
    ensures
        position(row_hashes(insert_nar(d, status, n).nars), path_hash(n.store_path)) is Some,
{
    let h = path_hash(n.store_path);
    if position(row_hashes(d.nars), h) is None {
        let after = insert_nar(d, status, n);
        let keys = row_hashes(after.nars);
        assert(keys[d.nars.len() as int] == h);
    }
}

/// Inserting the same artifacts a second time changes nothing: an ingest
/// that is repeated adds no row.
pub proof fn lemma_insert_nars_idempotent(d: DatabaseView, status: NarStatus, ns: Seq<NarView>)
    requires
        forall|i: int| 0 <= i < ns.len() ==> is_store_path((#[trigger] ns[i]).store_path),
    ensures
        insert_nars(insert_nars(d, status, ns), status, ns) == insert_nars(d, status, ns),
{
    lemma_insert_nars_holds(d, status, ns);
    lemma_insert_nars_held(insert_nars(d, status, ns), status, ns);
}

/// A text stands in two lists put together exactly where it stands in one
/// of them.
pub proof fn lemma_contains_concat(a: Seq<Seq<char>>, b: Seq<Seq<char>>, h: Seq<char>)
    ensures
        (a + b).contains(h) <==> a.contains(h) || b.contains(h),
{
    let c = a + b;
    if a.contains(h) {
        let i = choose|i: int| 0 <= i < a.len() && a[i] == h;
        assert(c[i] == h);
    }
    if b.contains(h) {
        let i = choose|i: int| 0 <= i < b.len() && b[i] == h;
        assert(c[a.len() + i] == h);
    }
    if c.contains(h) {
        let i = choose|i: int| 0 <= i < c.len() && c[i] == h;
        if i < a.len() {
            assert(a[i] == h);
        } else {
            assert(b[i - a.len()] == h);
        }
    }
}

/// Insertions never take a row away.
pub proof fn lemma_insert_nars_len(d: DatabaseView, status: NarStatus, ns: Seq<NarView>)
    ensures
        d.nars.len() <= insert_nars(d, status, ns).nars.len(),
    decreases ns.len(),
{
    if ns.len() > 0 {
        lemma_insert_nar_len(d, status, ns[0]);
        lemma_insert_nars_len(insert_nar(d, status, ns[0]), status, ns.drop_first());
    }
}

/// A copy of a list of ids.
fn copy_ids(ids: &Vec<i64>) -> (r: Vec<i64>)
    ensures
        r@ == ids@,
{
    let mut out: Vec<i64> = Vec::new();
    let mut i: usize = 0;
    while i < ids.len()
        invariant
            i <= ids@.len(),
            out@ == ids@.subrange(0, i as int),
        decreases ids.len() - i,
    {
        out.push(ids[i]);
        assert(out@ =~= ids@.subrange(0, i + 1));
        i += 1;
    }
    assert(out@ =~= ids@);
    out
}

impl Database {
    /// Whether a database whose header reads `(app_id, user_ver)` is new and
    /// must be given the schema first.
    pub fn needs_init(app_id: i32, user_ver: i32) -> (r: bool)
        ensures
            r == (app_id == 0 && user_ver == 0),
    {
        app_id == 0 && user_ver == 0
    }

    /// Accepts the header of a database that is a catalog of this version.
    pub fn check_version(app_id: i32, user_ver: i32) -> (r: Result<(), Error>)
        ensures
            r is Ok <==> app_id == APPLICATION_ID && user_ver == USER_VERSION,
            r matches Err(e) ==> e matches Error::InvalidDatabase(message) && message@
                == invalid_version_message(app_id, user_ver),
    {
        if app_id == APPLICATION_ID && user_ver == USER_VERSION {
            return Ok(());
        }
        let mut message = String::new();
        message.append("Invalid database, expect (app_id, user_ver): (");
        push_signed_decimal(&mut message, APPLICATION_ID);
        message.append(", ");
        push_signed_decimal(&mut message, USER_VERSION);
        message.append("), found (");
        push_signed_decimal(&mut message, app_id);
        message.append(", ");
        push_signed_decimal(&mut message, user_ver);
        message.append(")");
        Err(Error::InvalidDatabase(message))
    }

    /// Inserts `nar` with `status`, unless a row has its hash already, and
    /// gives the id of the row with that hash. A new row gets one edge for
    /// each of its references that the catalog holds, itself included.
    /// Where a row has the hash, nothing is looked at further. Else the
    /// insertion fails, and changes nothing, where a reference gives no
    /// store path or the catalog has no room.
    pub fn insert_or_ignore_nar(&mut self, status: NarStatus, nar: &Nar) -> (r: Result<
        i64,
        Error,
    >)
        requires
            old(self).wf(),
        ensures
            final(self).wf(),
            match r {
                Ok(id) => {
                    &&& is_held(old(self)@, nar@) || (refs_valid(nar.references@) && has_room(
                        old(self)@,
                        1,
                    ))
                    &&& final(self)@ == insert_nar(old(self)@, status, nar@)
                    &&& nar_id_of_hash(final(self)@.nars, path_hash(nar.store_path@)) == Some(
                        id as int,
                    )
                },
                Err(Error::ParseError(cause)) => {
                    &&& !is_held(old(self)@, nar@)
                    &&& !refs_valid(nar.references@)
                    &&& first_ref_error(nar.references@) is Some
                    &&& cause == ParseError::InvalidStorePath(first_ref_error(nar.references@)->0)
                    &&& final(self)@ == old(self)@
                },
                Err(Error::InvalidDatabase(message)) => {
                    &&& !is_held(old(self)@, nar@)
                    &&& refs_valid(nar.references@)
                    &&& !has_room(old(self)@, 1)
                    &&& message@ == "Too many rows"@
                    &&& final(self)@ == old(self)@
                },
                Err(Error::NotFound) => false,
            },
    {
        let hash = nar.store_path.hash();
        proof {
            lemma_position_none(row_hashes(self@.nars), hash@);
        }
        if self.by_hash.contains(&hash) {
            let no_hashes: Vec<StorePathHash> = Vec::new();
            return Ok(self.insert_row(status, nar, &no_hashes));
        }
        let hashes = match checked_ref_hashes(nar) {
            Ok(hashes) => hashes,
            Err(e) => {
                return Err(Error::ParseError(ParseError::InvalidStorePath(e)));
            },
        };
        if self.nars.len() as u128 + 1 >= i64::MAX as u128 {
            return Err(Error::InvalidDatabase("Too many rows".to_owned()));
        }
        Ok(self.insert_row(status, nar, &hashes))
    }

    /// Inserts each of `nars` with `status`, in order, as `insert_or_ignore_nar`
    /// does: an artifact whose hash a row has, be it a row of the catalog
    /// or of an artifact earlier in the list, is skipped, and its
    /// references are not looked at. Either all are inserted or, on
    /// failure, none: the insertion fails where an artifact that would get
    /// a row has a reference that gives no store path, or where the catalog
    /// has no room for the new rows.
    pub fn insert_or_ignore_nars(&mut self, status: NarStatus, nars: &Vec<Nar>) -> (r: Result<
        (),
        Error,
    >)
        requires
            old(self).wf(),
        ensures
            final(self).wf(),
            match r {
                Ok(_) => {
                    &&& first_new_ref_error(old(self)@, status, nar_views(nars@)) is None
                    &&& insert_nars(old(self)@, status, nar_views(nars@)).nars.len() < i64::MAX
                    &&& final(self)@ == insert_nars(old(self)@, status, nar_views(nars@))
                },
                Err(Error::ParseError(cause)) => {
                    &&& first_new_ref_error(old(self)@, status, nar_views(nars@)) is Some
                    &&& cause == ParseError::InvalidStorePath(
                        first_new_ref_error(old(self)@, status, nar_views(nars@))->0,
                    )
                    &&& final(self)@ == old(self)@
                },
                Err(Error::InvalidDatabase(message)) => {
                    &&& first_new_ref_error(old(self)@, status, nar_views(nars@)) is None
                    &&& insert_nars(old(self)@, status, nar_views(nars@)).nars.len() >= i64::MAX
                    &&& message@ == "Too many rows"@
                    &&& final(self)@ == old(self)@
                },
                Err(Error::NotFound) => false,
            },
    {
        let ghost views = nar_views(nars@);
        let ghost n = views.len() as int;
        let ghost d0 = self@;
        // The hashes of the artifacts that will get a row.
        let mut seen = HashIndex::new();
        let ghost mut d = d0;
        let mut i: usize = 0;
        proof {
            assert(views.subrange(0, n) =~= views);
            assert(row_hashes(d.nars) =~= self.by_hash@ + seen@);
        }
        while i < nars.len()
            invariant
                i <= nars@.len(),
                *self == *old(self),
                self.wf(),
                seen.wf(),
                d0 == self@,
                views == nar_views(nars@),
                n == views.len(),
                row_hashes(d.nars) == self.by_hash@ + seen@,
                first_new_ref_error(d, status, views.subrange(i as int, n)) == first_new_ref_error(
                    d0,
                    status,
                    views,
                ),
                insert_nars(d, status, views.subrange(i as int, n)) == insert_nars(
                    d0,
                    status,
                    views,
                ),
            decreases nars.len() - i,
        {
            let hash = nars[i].store_path.hash();
            let ghost keys = row_hashes(d.nars);
            proof {
                let rest = views.subrange(i as int, n);
                assert(rest[0] == nars@[i as int]@);
                assert(rest.drop_first() =~= views.subrange(i + 1, n));
                lemma_position_none(keys, hash@);
                lemma_contains_concat(self.by_hash@, seen@, hash@);
            }
            if !self.by_hash.contains(&hash) && !seen.contains(&hash) {
                match checked_ref_hashes(&nars[i]) {
                    Ok(_) => {},
                    Err(e) => {
                        return Err(Error::ParseError(ParseError::InvalidStorePath(e)));
                    },
                }
                seen.push(hash);
                proof {
                    let next = insert_nar(d, status, nars@[i as int]@);
                    assert(row_hashes(next.nars) =~= keys.push(hash@));
                    assert(keys.push(hash@) =~= self.by_hash@ + seen@);
                    d = next;
                }
            } else {
                proof {
                    assert(insert_nar(d, status, nars@[i as int]@) == d);
                }
            }
            i += 1;
        }
        proof {
            assert(views.subrange(n, n) =~= Seq::<NarView>::empty());
            assert(d == insert_nars(d0, status, views));
            assert(row_hashes(d.nars).len() == d.nars.len());
            assert(self.by_hash@.len() == self.nars@.len());
        }
        if self.nars.len() as u128 + seen.len() as u128 >= i64::MAX as u128 {
            return Err(Error::InvalidDatabase("Too many rows".to_owned()));
        }
        let mut i: usize = 0;
        assert(views.subrange(0, n) =~= views);
        while i < nars.len()
            invariant
                i <= nars@.len(),
                self.wf(),
                views == nar_views(nars@),
                n == views.len(),
                first_new_ref_error(self@, status, views.subrange(i as int, n)) is None,
                insert_nars(self@, status, views.subrange(i as int, n)) == insert_nars(
                    d0,
                    status,
                    views,
                ),
                insert_nars(d0, status, views).nars.len() < i64::MAX,
            decreases nars.len() - i,
        {
            let hash = nars[i].store_path.hash();
            proof {
                let rest = views.subrange(i as int, n);
                assert(rest[0] == nars@[i as int]@);
                assert(rest.drop_first() =~= views.subrange(i + 1, n));
                lemma_position_none(row_hashes(self@.nars), hash@);
                lemma_insert_nars_len(
                    insert_nar(self@, status, rest[0]),
                    status,
                    rest.drop_first(),
                );
                lemma_insert_nar_len(self@, status, rest[0]);
                lemma_first_error_in(split_refs(rest[0].references));
            }
            if !self.by_hash.contains(&hash) {
                match checked_ref_hashes(&nars[i]) {
                    Ok(hashes) => {
                        self.insert_row(status, &nars[i], &hashes);
                    },
                    Err(_) => {},
                }
            }
            i += 1;
        }
        Ok(())
    }

    /// The ids of the rows that the edges of the row `id` go to, in the
    /// order of the references of the row; none where the catalog has no
    /// row `id`.
    pub fn nar_refs(&self, id: i64) -> (r: Option<Vec<i64>>)
        requires
            self.wf(),
        ensures
            match r {
                Some(refs) => 1 <= id <= self@.nars.len() && ids_view(refs@) == self@.nars[id
                    - 1].refs,
                None => !(1 <= id <= self@.nars.len()),
            },
    {
        if id < 1 || id as u128 > self.nars.len() as u128 {
            return None;
        }
        let row = &self.nars[(id - 1) as usize];
        assert(self@.nars[id - 1] == row@);
        Some(copy_ids(&row.refs))
    }

    /// The ids of the rows that the root `id` pins, in the order in which
    /// their hashes were given; none where the catalog has no root `id`.
    pub fn root_pins(&self, id: i64) -> (r: Option<Vec<i64>>)
        requires
            self.wf(),
        ensures
            match r {
                Some(pins) => 1 <= id <= self@.roots.len() && ids_view(pins@) == self@.roots[id
                    - 1].pinned,
                None => !(1 <= id <= self@.roots.len()),
            },
    {
        if id < 1 || id as u128 > self.roots.len() as u128 {
            return None;
        }
        let row = &self.roots[(id - 1) as usize];
        assert(self@.roots[id - 1] == row@);
        Some(copy_ids(&row.pinned))
    }

    /// The references field of a row with the edges `refs`.
    fn references_of(&self, refs: &Vec<i64>) -> (r: String)
        requires
            self.wf(),
            forall|k: int| 0 <= k < refs@.len() ==> 1 <= #[trigger] refs@[k] <= self.nars@.len(),
        ensures
            r@ == refs_text(self@.nars, ids_view(refs@)),
    {
        let ghost ids = ids_view(refs@);
        let mut out = String::new();
        let mut k: usize = 0;
        let n = self.nars.len();
        assert(ids.subrange(0, 0) =~= Seq::<int>::empty());
        while k < refs.len()
            invariant
                k <= refs@.len(),
                n == self.nars@.len(),
                ids == ids_view(refs@),
                forall|j: int|
                    0 <= j < refs@.len() ==> 1 <= #[trigger] refs@[j] <= self.nars@.len(),
                out@ == refs_text(self@.nars, ids.subrange(0, k as int)),
            decreases refs.len() - k,
        {
            let id = refs[k];
            assert(1 <= refs@[k as int] <= self.nars@.len());
            let row = &self.nars[(id - 1) as usize];
            proof {
                assert(self@.nars[id - 1] == self.nars@[id - 1]@);
                let t = ids.subrange(0, k + 1);
                assert(t.drop_last() =~= ids.subrange(0, k as int));
                assert(t.last() == id);
                assert(self@.nars[id - 1].store_path == row.store_path@);
                if k == 0 {
                    assert(t[0] == id);
                }
            }
            if k > 0 {
                out.append(" ");
            }
            out.append(row.store_path.basename());
            proof {
                let t = ids.subrange(0, k + 1);
                if k == 0 {
                    assert(out@ =~= path_basename(self@.nars[id - 1].store_path));
                }
            }
            k += 1;
        }
        assert(ids.subrange(0, refs@.len() as int) =~= ids);
        out
    }

    /// Every row that has `status`, with its id, in the order of the catalog.
    /// The references of a row are the basenames of the rows its edges go to.
    pub fn select_all_nar(&self, status: NarStatus) -> (r: Result<Vec<(i64, Nar)>, Error>)
        requires
            self.wf(),
        ensures
            r matches Ok(rows) && selected_views(rows@) == select_all(
                self@.nars,
                status,
                self@.nars.len() as int,
            ),
    {
        let mut out: Vec<(i64, Nar)> = Vec::new();
        let mut i: usize = 0;
        assert(selected_views(out@) =~= select_all(self@.nars, status, 0));
        while i < self.nars.len()
            invariant
                self.wf(),
                i <= self.nars@.len(),
                selected_views(out@) == select_all(self@.nars, status, i as int),
            decreases self.nars.len() - i,
        {
            let row = &self.nars[i];
            let ghost before = selected_views(out@);
            proof {
                assert(self@.nars[i as int] == row@);
                assert forall|k: int| 0 <= k < row.refs@.len() implies 1 <= #[trigger] row.refs@[k]
                    <= self.nars@.len() by {
                    assert(self@.nars[i as int].refs[k] == row.refs@[k]);
                }
            }
            if row.status == status {
                let nar = Nar {
                    store_path: row.store_path.duplicate(),
                    meta: row.meta.duplicate(),
                    references: self.references_of(&row.refs),
                };
                assert(nar@ == row_nar(self@.nars, i as int));
                out.push((i as i64 + 1, nar));
                assert(selected_views(out@) =~= before.push((i + 1, row_nar(self@.nars, i as int))));
            }
            i += 1;
        }
        Ok(out)
    }

    /// Inserts `root` with one pinning edge for each of `root_hashes` that
    /// the catalog holds, and gives the id of the new root. Fails, and
    /// changes nothing, where the catalog has no room.
    pub fn insert_root(&mut self, root: &Root, root_hashes: &Vec<StorePathHash>) -> (r: Result<
        i64,
        Error,
    >)
        requires
            old(self).wf(),
        ensures
            final(self).wf(),
            match r {
                Ok(id) => {
                    &&& has_room_for_root(old(self)@)
                    &&& final(self)@ == insert_root_row(
                        old(self)@,
                        root@,
                        hash_texts(root_hashes@),
                    )
                    &&& id == old(self)@.roots.len() + 1
                },
                Err(Error::InvalidDatabase(message)) => !has_room_for_root(old(self)@) && message@
                    == "Too many roots"@ && final(self)@ == old(self)@,
                Err(_) => false,
            },
    {
        if self.roots.len() as u128 + 1 >= i64::MAX as u128 {
            return Err(Error::InvalidDatabase("Too many roots".to_owned()));
        }
        assert(self.by_hash@.len() == self.nars@.len());
        let pinned = resolve_in(&self.by_hash, root_hashes);
        let ghost old_view = self@;
        let id = self.roots.len() as i64 + 1;
        let row = RootRow {
            channel_url: duplicate_opt(&root.channel_url),
            cache_url: duplicate_opt(&root.cache_url),
            git_revision: duplicate_opt(&root.git_revision),
            fetch_time: match &root.fetch_time {
                Some(t) => Some(t.to_rfc3339().to_owned()),
                None => None,
            },
            status: root.status,
            pinned,
        };
        assert(row@.root == root@);
        self.roots.push(row);
        proof {
            let want = insert_root_row(old_view, root@, hash_texts(root_hashes@));
            assert(self@.nars =~= old_view.nars);
            assert(self@.roots =~= want.roots);
            lemma_resolve_in_range(row_hashes(old_view.nars), hash_texts(root_hashes@));
            assert(catalog_inv(self@)) by {
                assert forall|i: int, k: int|
                    0 <= i < self@.roots.len() && 0 <= k < self@.roots[i].pinned.len() implies 1
                        <= #[trigger] self@.roots[i].pinned[k] <= self@.nars.len() by {
                    if i < old_view.roots.len() {
                        assert(self@.roots[i] == old_view.roots[i]);
                        assert(1 <= old_view.roots[i].pinned[k] <= old_view.nars.len());
                    }
                }
            }
        }
        Ok(id)
    }
}

/// The texts of a list of hashes.
pub open spec fn hash_texts(hashes: Seq<StorePathHash>) -> Seq<Seq<char>> {
    Seq::new(hashes.len(), |i: int| hashes[i]@)
}

} // verus!
