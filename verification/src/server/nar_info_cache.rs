//! The index from which narinfo requests are answered.
//!
//! The index is built once from the rows of the catalog that are available.
//! One byte buffer holds the narinfo texts back to back; each hash maps to the
//! range of its text and to the size of its payload.

use vstd::prelude::*;
use vstd::slice::slice_subrange;
use vstd::string::*;
use vstd::utf8::*;

use crate::database::model::{path_hash, NarMetaView, NarStatus, NarView};
use crate::database::nar_info::render_nar_info;
use crate::database::{
    catalog_inv, lemma_select_all, row_hashes, row_nar, select_all, selected_views, Database,
    DatabaseView, Error,
};
use crate::hash_index::{ascii_bytes, lemma_position, lemma_position_none, position, HashIndex};
use crate::text::str_from_utf8;

verus! {

/// What the index holds for one hash.
pub struct CacheEntryView {
    pub hash: Seq<char>,
    pub info: Seq<char>,
    pub file_size: u64,
}

/// The artifact as it is served: its URL is `nar/<hash>`.
pub open spec fn served_nar(n: NarView) -> NarView {
    NarView {
        meta: NarMetaView { url: "nar/"@ + path_hash(n.store_path), ..n.meta },
        ..n
    }
}

/// The size of the payload that is served: the file size where the catalog
/// knows it, else the nar size.
pub open spec fn served_size(m: NarMetaView) -> u64 {
    match m.file_size {
        Some(size) => size,
        None => m.nar_size,
    }
}

/// What a catalog serves for the hash `h`: the narinfo text and the payload
/// size of the row with that hash, if that row is available.
pub open spec fn served(d: DatabaseView, h: Seq<char>) -> Option<(Seq<char>, u64)> {
    match position(row_hashes(d.nars), h) {
        Some(i) => if d.nars[i].status == NarStatus::Available {
            Some((render_nar_info(served_nar(row_nar(d.nars, i))), served_size(d.nars[i].meta)))
        } else {
            None
        },
        None => None,
    }
}

/// The hashes of the entries, in order.
pub open spec fn entry_hashes(entries: Seq<CacheEntryView>) -> Seq<Seq<char>> {
    Seq::new(entries.len(), |i: int| entries[i].hash)
}

/// What the entries give for the hash `h`.
pub open spec fn lookup(entries: Seq<CacheEntryView>, h: Seq<char>) -> Option<(Seq<char>, u64)> {
    match position(entry_hashes(entries), h) {
        Some(i) => Some((entries[i].info, entries[i].file_size)),
        None => None,
    }
}

struct CacheItem {
    start: usize,
    end: usize,
    file_size: u64,
}

/// The index of the narinfo texts that are served.
pub struct NarInfoCache {
    buf: Vec<u8>,
    index: HashIndex,
    items: Vec<CacheItem>,
}

impl View for NarInfoCache {
    type V = Seq<CacheEntryView>;

    closed spec fn view(&self) -> Seq<CacheEntryView> {
        Seq::new(
            self.items@.len(),
            |i: int|
                CacheEntryView {
                    hash: self.index@[i],
                    info: decode_utf8(
                        self.buf@.subrange(self.items@[i].start as int, self.items@[i].end as int),
                    ),
                    file_size: self.items@[i].file_size,
                },
        )
    }
}

impl NarInfoCache {
    /// The invariant of the representation: each range lies in the buffer
    /// and holds a text.
    pub closed spec fn wf(&self) -> bool {
        &&& self.index.wf()
        &&& self.index@.len() == self.items@.len()
        &&& forall|i: int|
            0 <= i < self.items@.len() ==> {
                &&& (#[trigger] self.items@[i]).start <= self.items@[i].end <= self.buf@.len()
                &&& valid_utf8(
                    self.buf@.subrange(self.items@[i].start as int, self.items@[i].end as int),
                )
            }
    }

    /// What the index gives for the hash `h`.
    pub open spec fn spec_get(&self, h: Seq<char>) -> Option<(Seq<char>, u64)> {
        lookup(self@, h)
    }

    /// Builds the index from the rows of `db` that are available. The index
    /// then serves, for every hash, exactly what the catalog serves.
    pub fn init(db: &Database) -> (r: Result<NarInfoCache, Error>)
        requires
            db.wf(),
        ensures
            r matches Ok(cache) && cache.wf() && forall|h: Seq<char>|
                #[trigger] cache.spec_get(h) == served(db@, h),
    {
        let rows = match db.select_all_nar(NarStatus::Available) {
            Ok(rows) => rows,
            Err(e) => {
                return Err(e);
            },
        };
        let ghost nars = db@.nars;
        let ghost sel = select_all(nars, NarStatus::Available, nars.len() as int);
        proof {
            db.lemma_catalog_inv();
            lemma_select_all(nars, NarStatus::Available, nars.len() as int);
        }
        let mut cache = NarInfoCache { buf: Vec::new(), index: HashIndex::new(), items: Vec::new() };
        let mut k: usize = 0;
        while k < rows.len()
            invariant
                k <= rows@.len(),
                cache.wf(),
                cache@.len() == k,
                nars == db@.nars,
                catalog_inv(db@),
                sel == select_all(nars, NarStatus::Available, nars.len() as int),
                selected_views(rows@) == sel,
                forall|j: int|
                    0 <= j < sel.len() ==> {
                        let e = #[trigger] sel[j];
                        &&& 1 <= e.0 <= nars.len()
                        &&& nars[e.0 - 1].status == NarStatus::Available
                        &&& e.1 == row_nar(nars, e.0 - 1)
                    },
                forall|j1: int, j2: int|
                    0 <= j1 < j2 < sel.len() ==> (#[trigger] sel[j1]).0 < (#[trigger] sel[j2]).0,
                forall|j: int|
                    0 <= j < k ==> {
                        let e = #[trigger] cache@[j];
                        &&& e.hash == path_hash(sel[j].1.store_path)
                        &&& e.info == render_nar_info(served_nar(sel[j].1))
                        &&& e.file_size == served_size(sel[j].1.meta)
                    },
            decreases rows.len() - k,
        {
            let row = &rows[k];
            let ghost entry = sel[k as int];
            assert(entry == (row.0 as int, row.1@)) by {
                assert(selected_views(rows@)[k as int] == (row.0 as int, row.1@));
            }
            let hash = row.1.store_path.hash();
            let mut nar = row.1.duplicate();
            let mut url = String::new();
            url.append("nar/");
            url.append(row.1.store_path.hash_str());
            nar.meta.url = url;
            assert(nar@ == served_nar(row.1@));
            let info = nar.format_nar_info();
            let file_size = match nar.meta.file_size {
                Some(size) => size,
                None => nar.meta.nar_size,
            };
            let ghost old_cache = cache;
            let ghost old_buf = cache.buf@;
            let start = cache.buf.len();
            cache.buf.extend_from_slice(info.as_str().as_bytes());
            let end = cache.buf.len();
            proof {
                cache.index.lemma_no_duplicates();
                assert(!cache.index@.contains(hash@)) by {
                    if cache.index@.contains(hash@) {
                        let j = choose|j: int| 0 <= j < cache.index@.len() && cache.index@[j] == hash@;
                        assert(old_cache@[j].hash == cache.index@[j]);
                        assert(sel[j].0 < sel[k as int].0);
                        let a = sel[j].0 - 1;
                        let b = sel[k as int].0 - 1;
                        assert(row_hashes(nars)[a] == path_hash(nars[a].store_path));
                        assert(row_hashes(nars)[b] == path_hash(nars[b].store_path));
                        assert(row_hashes(nars)[a] != row_hashes(nars)[b]);
                    }
                }
            }
            cache.index.push(hash);
            cache.items.push(CacheItem { start, end, file_size });
            proof {
                let bytes = encode_utf8(info@);
                assert(cache.buf@.subrange(start as int, end as int) =~= bytes);
                encode_utf8_valid_utf8(info@);
                encode_utf8_decode_utf8(info@);
                assert forall|i: int| 0 <= i < cache.items@.len() implies {
                    &&& (#[trigger] cache.items@[i]).start <= cache.items@[i].end <= cache.buf@.len()
                    &&& valid_utf8(
                        cache.buf@.subrange(
                            cache.items@[i].start as int,
                            cache.items@[i].end as int,
                        ),
                    )
                } by {
                    if i < k {
                        let it = old_cache.items@[i];
                        assert(cache.items@[i] == it);
                        assert(cache.buf@.subrange(it.start as int, it.end as int) =~= old_buf.subrange(
                            it.start as int,
                            it.end as int,
                        ));
                    }
                }
                assert forall|j: int| 0 <= j < k + 1 implies {
                    let e = #[trigger] cache@[j];
                    &&& e.hash == path_hash(sel[j].1.store_path)
                    &&& e.info == render_nar_info(served_nar(sel[j].1))
                    &&& e.file_size == served_size(sel[j].1.meta)
                } by {
                    if j < k {
                        let it = old_cache.items@[j];
                        assert(cache.items@[j] == it);
                        assert(cache.buf@.subrange(it.start as int, it.end as int) =~= old_buf.subrange(
                            it.start as int,
                            it.end as int,
                        ));
                        assert(cache@[j] == old_cache@[j]);
                    }
                }
            }
            k += 1;
        }
        proof {
            cache.index.lemma_no_duplicates();
            let entries = cache@;
            let keys = entry_hashes(entries);
            assert(keys =~= cache.index@);
            assert forall|h: Seq<char>| #[trigger] cache.spec_get(h) == served(db@, h) by {
                lemma_position_none(keys, h);
                lemma_position_none(row_hashes(nars), h);
                match position(keys, h) {
                    Some(j) => {
                        let i = sel[j].0 - 1;
                        assert(entries[j].hash == path_hash(sel[j].1.store_path));
                        assert(row_hashes(nars)[i] == h);
                        lemma_position(row_hashes(nars), h, i);
                    },
                    None => {
                        match position(row_hashes(nars), h) {
                            Some(i) => {
                                if nars[i].status == NarStatus::Available {
                                    let j = choose|j: int|
                                        0 <= j < sel.len() && (#[trigger] sel[j]).0 == i + 1;
                                    assert(keys[j] == entries[j].hash);
                                    assert(keys.contains(h));
                                }
                            },
                            None => {},
                        }
                    },
                }
            }
        }
        Ok(cache)
    }

    /// The position of the entry for `hash`.
    fn find(&self, hash: &str) -> (r: Option<usize>)
        requires
            self.wf(),
        ensures
            match r {
                Some(i) => i < self@.len() && position(entry_hashes(self@), hash@) == Some(
                    i as int,
                ),
                None => position(entry_hashes(self@), hash@) is None,
            },
    {
        let r = self.index.position_of_bytes(hash.as_bytes());
        proof {
            self.index.lemma_no_duplicates();
            self.index.lemma_ascii_keys();
            assert(entry_hashes(self@) =~= self.index@);
            match r {
                Some(i) => {
                    let key = self.index@[i as int];
                    is_ascii_chars_encode_utf8(key);
                    assert(encode_utf8(key) =~= ascii_bytes(key));
                    encode_utf8_decode_utf8(key);
                    encode_utf8_decode_utf8(hash@);
                    lemma_position(self.index@, hash@, i as int);
                },
                None => {
                    lemma_position_none(self.index@, hash@);
                    if self.index@.contains(hash@) {
                        let i = choose|i: int| 0 <= i < self.index@.len() && self.index@[i] == hash@;
                        is_ascii_chars_encode_utf8(self.index@[i]);
                        assert(encode_utf8(self.index@[i]) =~= ascii_bytes(self.index@[i]));
                    }
                },
            }
        }
        r
    }

    /// The narinfo text that is served for `hash`; none where the hash is
    /// not that of an available artifact.
    pub fn get_info(&self, hash: &str) -> (r: Option<&str>)
        requires
            self.wf(),
        ensures
            match r {
                Some(info) => self.spec_get(hash@) matches Some(e) && e.0 == info@,
                None => self.spec_get(hash@) is None,
            },
    {
        match self.find(hash) {
            Some(i) => {
                let item = &self.items[i];
                let bytes = slice_subrange(self.buf.as_slice(), item.start, item.end);
                str_from_utf8(bytes)
            },
            None => None,
        }
    }

    /// The size of the payload that is served for `hash`; none where the
    /// hash is not that of an available artifact.
    pub fn get_file_size(&self, hash: &str) -> (r: Option<u64>)
        requires
            self.wf(),
        ensures
            match r {
                Some(size) => self.spec_get(hash@) matches Some(e) && e.1 == size,
                None => self.spec_get(hash@) is None,
            },
    {
        match self.find(hash) {
            Some(i) => Some(self.items[i].file_size),
            None => None,
        }
    }
}

} // verus!
