//! Bringing a channel into the catalog: which files of the channel to fetch,
//! what they must hold, and the root that records the snapshot.

pub mod dep_graph;
pub mod fetch_meta_rec;
pub mod semaphore;

use vstd::prelude::*;
use vstd::string::*;
use vstd::utf8::*;

use crate::database::model::{
    store_path_error, FetchTime, InvalidStorePath, ParseError, Root, RootStatus, RootView,
    StorePath, StorePathHash,
};
use crate::database::nar_info::{after_first_line, first_line};
use crate::database::{
    has_room, has_room_for_root, hash_texts, nar_id_of_hash, resolve_hashes, Database,
    DatabaseView, RootRowView,
};
use crate::text::{chars_of, find_char, lemma_index_of, str_from_utf8, string_of};
use crate::update::dep_graph::is_acyclic;
use crate::update::fetch_meta_rec::{
    add_todos, all_held, crawl_inv, empty_crawl, extends, is_committed, is_row_of_read,
    roots_known, Fetcher, NarStateView,
};

verus! {

/// Why the list of the store paths of a channel could not be read.
#[derive(Debug, Clone, Copy, PartialEq, Eq, Structural)]
pub enum InvalidStorePaths {
    /// The file is no XZ stream.
    NotXz,
    /// The stream does not hold UTF-8 text.
    NotUtf8,
    /// A line is not a store path.
    InvalidStorePath(InvalidStorePath),
}

/// Why a narinfo could not be had.
#[derive(Debug)]
pub enum FetchCause {
    /// The transport failed; the text says how.
    Transport(String),
    /// What came is no narinfo.
    Parse(ParseError),
    /// The narinfo that came is that of another store path.
    UnexpectedStorePath,
    /// No narinfo was awaited for this hash.
    NotAwaited,
}

/// Why a channel could not be brought into the catalog.
#[derive(Debug)]
pub enum Error {
    /// The catalog failed.
    Database(crate::database::Error),
    /// The narinfo of this hash could not be had.
    FetchFailed(StorePathHash, FetchCause),
    /// The git revision of the channel is not forty lowercase hex digits.
    InvalidRevision,
    /// The git revision changed while the channel was fetched.
    RevisionMismatch,
    /// Some narinfo that was asked for never came.
    IncompleteFetch,
    /// The references of the artifacts that were fetched go in a circle.
    CyclicReferences,
    /// The list of the store paths of the channel could not be read.
    InvalidStorePaths(InvalidStorePaths),
}

/// The bytes that an XZ stream holds; `None` where the bytes are not one
/// whole XZ stream.
pub uninterp spec fn xz_decoded(data: Seq<u8>) -> Option<Seq<u8>>;

/// `xz2::read::XzDecoder::new` over the input, read to its end with
/// `Read::read_to_end`: what a single XZ stream decodes to depends on the
/// bytes of the stream alone, and reading fails where the bytes are not one.
#[verifier::external_body]
fn xz_decode(data: &[u8]) -> (r: Option<Vec<u8>>)
    ensures
        r is Some <==> xz_decoded(data@) is Some,
        r matches Some(out) ==> xz_decoded(data@) == Some(out@),
{
    let mut out = Vec::new();
    match std::io::Read::read_to_end(&mut xz2::read::XzDecoder::new(data), &mut out) {
        Ok(_) => Some(out),
        Err(_) => None,
    }
}

/// `c` is a lowercase hex digit.
pub open spec fn is_lower_hex(c: char) -> bool {
    ('0' <= c && c <= '9') || ('a' <= c && c <= 'f')
}

/// `s` is a git revision: forty lowercase hex digits.
pub open spec fn is_git_revision(s: Seq<char>) -> bool {
    s.len() == 40 && forall|i: int| 0 <= i < s.len() ==> is_lower_hex(#[trigger] s[i])
}

/// `c` is ASCII white space.
pub open spec fn is_space(c: char) -> bool {
    c == ' ' || c == '\t' || c == '\n' || c == '\r' || c == '\x0c'
}

/// The number of white space characters at the start of `s`.
pub open spec fn leading_spaces(s: Seq<char>) -> int
    decreases s.len(),
{
    if s.len() > 0 && is_space(s[0]) {
        1 + leading_spaces(s.drop_first())
    } else {
        0
    }
}

/// The number of white space characters at the end of `s`.
pub open spec fn trailing_spaces(s: Seq<char>) -> int
    decreases s.len(),
{
    if s.len() > 0 && is_space(s.last()) {
        1 + trailing_spaces(s.drop_last())
    } else {
        0
    }
}

/// `s` without the white space at its start and at its end.
pub open spec fn trimmed(s: Seq<char>) -> Seq<char> {
    let from = leading_spaces(s);
    let rest = s.subrange(from, s.len() as int);
    rest.subrange(0, rest.len() - trailing_spaces(rest))
}

/// The counts of white space lie within the text.
pub proof fn lemma_spaces(s: Seq<char>)
    ensures
        0 <= leading_spaces(s) <= s.len(),
        0 <= trailing_spaces(s) <= s.len(),
    decreases s.len(),
{
    if s.len() > 0 {
        lemma_spaces(s.drop_first());
        lemma_spaces(s.drop_last());
    }
}

/// The store paths that the lines of `s` give, after those in `acc`: every
/// line that is not empty must be a store path.
pub open spec fn path_lines(s: Seq<char>, acc: Seq<Seq<char>>) -> Result<
    Seq<Seq<char>>,
    InvalidStorePath,
>
    decreases s.len(),
    via path_lines_decreases
{
    if s.len() == 0 {
        Ok(acc)
    } else {
        let line = first_line(s);
        if line.len() == 0 {
            path_lines(after_first_line(s), acc)
        } else {
            match store_path_error(line) {
                Some(e) => Err(e),
                None => path_lines(after_first_line(s), acc.push(line)),
            }
        }
    }
}

#[via_fn]
proof fn path_lines_decreases(s: Seq<char>, acc: Seq<Seq<char>>) {
    lemma_index_of(s, '\n');
}

/// The store paths that the compressed list of a channel holds.
pub open spec fn store_paths_of(xz: Seq<u8>) -> Result<Seq<Seq<char>>, InvalidStorePaths> {
    match xz_decoded(xz) {
        None => Err(InvalidStorePaths::NotXz),
        Some(bytes) => store_paths_in_bytes(bytes),
    }
}

/// The store paths that the bytes of a list hold: the bytes must be UTF-8
/// text.
pub open spec fn store_paths_in_bytes(bytes: Seq<u8>) -> Result<
    Seq<Seq<char>>,
    InvalidStorePaths,
> {
    if !valid_utf8(bytes) {
        Err(InvalidStorePaths::NotUtf8)
    } else {
        store_paths_in(decode_utf8(bytes))
    }
}

/// The store paths that the text of a list holds.
pub open spec fn store_paths_in(text: Seq<char>) -> Result<Seq<Seq<char>>, InvalidStorePaths> {
    match path_lines(text, Seq::empty()) {
        Err(e) => Err(InvalidStorePaths::InvalidStorePath(e)),
        Ok(paths) => Ok(paths),
    }
}

/// The texts of a list of store paths.
pub open spec fn path_texts(paths: Seq<StorePath>) -> Seq<Seq<char>> {
    Seq::new(paths.len(), |i: int| paths[i]@)
}

/// The address of the file that holds the git revision of a channel.
pub fn revision_url(channel_url: &str) -> (r: String)
    ensures
        r@ == channel_url@ + "/git-revision"@,
{
    let mut r = channel_url.to_owned();
    r.append("/git-revision");
    r
}

/// The address of the file that holds the store paths of a channel.
pub fn store_paths_url(channel_url: &str) -> (r: String)
    ensures
        r@ == channel_url@ + "/store-paths.xz"@,
{
    let mut r = channel_url.to_owned();
    r.append("/store-paths.xz");
    r
}

/// The address of the file that names the binary cache of a channel.
pub fn binary_cache_url_url(channel_url: &str) -> (r: String)
    ensures
        r@ == channel_url@ + "/binary-cache-url"@,
{
    let mut r = channel_url.to_owned();
    r.append("/binary-cache-url");
    r
}

/// Accepts the content of the revision file where it is a git revision.
pub fn get_git_revision(body: String) -> (r: Result<String, Error>)
    ensures
        match r {
            Ok(rev) => is_git_revision(body@) && rev@ == body@,
            Err(e) => !is_git_revision(body@) && e is InvalidRevision,
        },
{
    let chars = chars_of(body.as_str());
    if chars.len() != 40 {
        return Err(Error::InvalidRevision);
    }
    let mut i: usize = 0;
    while i < 40
        invariant
            i <= 40,
            chars@.len() == 40,
            chars@ == body@,
            forall|k: int| 0 <= k < i ==> is_lower_hex(#[trigger] chars@[k]),
        decreases 40 - i,
    {
        let c = chars[i];
        if !(('0' <= c && c <= '9') || ('a' <= c && c <= 'f')) {
            return Err(Error::InvalidRevision);
        }
        i += 1;
    }
    Ok(body)
}

/// `body` without the white space around it.
pub fn trim(body: &str) -> (r: String)
    ensures
        r@ == trimmed(body@),
{
    let chars = chars_of(body);
    let n = chars.len();
    let mut from: usize = 0;
    proof {
        lemma_spaces(chars@);
        assert(chars@.subrange(0, n as int) =~= chars@);
    }
    while from < n && is_space_char(chars[from])
        invariant
            from <= n == chars@.len(),
            leading_spaces(chars@) == from + leading_spaces(chars@.subrange(from as int, n as int)),
        decreases n - from,
    {
        proof {
            let rest = chars@.subrange(from as int, n as int);
            assert(rest.drop_first() =~= chars@.subrange(from + 1, n as int));
        }
        from += 1;
    }
    let ghost rest = chars@.subrange(from as int, n as int);
    assert(leading_spaces(chars@) == from) by {
        if from < n {
            assert(rest[0] == chars@[from as int]);
        }
    }
    let mut to: usize = n;
    assert(chars@.subrange(from as int, n as int) =~= rest);
    while to > from && is_space_char(chars[to - 1])
        invariant
            from <= to <= n == chars@.len(),
            rest == chars@.subrange(from as int, n as int),
            trailing_spaces(rest) == n - to + trailing_spaces(
                chars@.subrange(from as int, to as int),
            ),
        decreases to,
    {
        proof {
            let part = chars@.subrange(from as int, to as int);
            assert(part.drop_last() =~= chars@.subrange(from as int, to - 1));
        }
        to -= 1;
    }
    assert(trailing_spaces(rest) == n - to) by {
        let part = chars@.subrange(from as int, to as int);
        if to > from {
            assert(part.last() == chars@[to - 1]);
        }
    }
    assert(rest.subrange(0, rest.len() - (n - to)) =~= chars@.subrange(from as int, to as int));
    string_of(&chars, from, to)
}

fn is_space_char(c: char) -> (r: bool)
    ensures
        r == is_space(c),
{
    c == ' ' || c == '\t' || c == '\n' || c == '\r' || c == '\x0c'
}

/// The store paths that the text of a list holds, one on each line that is
/// not empty.
pub fn parse_store_paths(text: &str) -> (r: Result<Vec<StorePath>, Error>)
    ensures
        match r {
            Ok(paths) => store_paths_in(text@) == Ok::<Seq<Seq<char>>, InvalidStorePaths>(
                path_texts(paths@),
            ),
            Err(e) => e matches Error::InvalidStorePaths(cause) && store_paths_in(text@) == Err::<
                Seq<Seq<char>>,
                InvalidStorePaths,
            >(cause),
        },
{
    let chars = chars_of(text);
    let n = chars.len();
    let mut out: Vec<StorePath> = Vec::new();
    let mut pos: usize = 0;
    assert(chars@.subrange(0, n as int) =~= text@);
    assert(path_texts(out@) =~= Seq::<Seq<char>>::empty());
    while pos < n
        invariant
            pos <= n == chars@.len(),
            chars@ == text@,
            path_lines(chars@.subrange(pos as int, n as int), path_texts(out@)) == path_lines(
                text@,
                Seq::empty(),
            ),
        decreases n - pos,
    {
        let ghost rest = chars@.subrange(pos as int, n as int);
        let ghost before = path_texts(out@);
        let nl = find_char(&chars, pos, n, '\n');
        let end = if nl < n && nl > pos && chars[nl - 1] == '\r' {
            nl - 1
        } else {
            nl
        };
        let next = if nl < n {
            nl + 1
        } else {
            n
        };
        proof {
            lemma_index_of(rest, '\n');
            assert(first_line(rest) =~= chars@.subrange(pos as int, end as int));
            assert(after_first_line(rest) =~= chars@.subrange(next as int, n as int));
        }
        if end > pos {
            match StorePath::try_from(string_of(&chars, pos, end)) {
                Ok(p) => {
                    out.push(p);
                    assert(path_texts(out@) =~= before.push(first_line(rest)));
                },
                Err(e) => {
                    return Err(Error::InvalidStorePaths(InvalidStorePaths::InvalidStorePath(e)));
                },
            }
        }
        pos = next;
    }
    Ok(out)
}

/// The store paths that the bytes of a list hold.
pub fn read_store_paths(bytes: &[u8]) -> (r: Result<Vec<StorePath>, Error>)
    ensures
        match r {
            Ok(paths) => store_paths_in_bytes(bytes@) == Ok::<Seq<Seq<char>>, InvalidStorePaths>(
                path_texts(paths@),
            ),
            Err(e) => e matches Error::InvalidStorePaths(cause) && store_paths_in_bytes(bytes@)
                == Err::<Seq<Seq<char>>, InvalidStorePaths>(cause),
        },
{
    match str_from_utf8(bytes) {
        Some(text) => parse_store_paths(text),
        None => Err(Error::InvalidStorePaths(InvalidStorePaths::NotUtf8)),
    }
}

/// The store paths that the compressed list of a channel holds.
pub fn get_store_paths(xz: &[u8]) -> (r: Result<Vec<StorePath>, Error>)
    ensures
        match r {
            Ok(paths) => store_paths_of(xz@) == Ok::<Seq<Seq<char>>, InvalidStorePaths>(
                path_texts(paths@),
            ),
            Err(e) => e matches Error::InvalidStorePaths(cause) && store_paths_of(xz@) == Err::<
                Seq<Seq<char>>,
                InvalidStorePaths,
            >(cause),
        },
{
    match xz_decode(xz) {
        Some(bytes) => read_store_paths(bytes.as_slice()),
        None => Err(Error::InvalidStorePaths(InvalidStorePaths::NotXz)),
    }
}

/// What was read of a channel: where it is, the binary cache that holds its
/// artifacts, its git revision, when it was read, and its store paths.
#[derive(Debug)]
pub struct NixChannelInfo {
    pub channel_url: String,
    pub cache_url: String,
    pub git_revision: String,
    pub fetch_time: FetchTime,
    pub root_paths: Vec<StorePath>,
}

/// Where the address of the binary cache of a channel comes from.
#[derive(Debug)]
pub enum CacheUrl {
    /// The caller gave the address.
    Given(String),
    /// The content of the `binary-cache-url` file of the channel.
    Fetched(String),
}

/// The address of the binary cache: the one given, or the content of the
/// file without the white space around it.
pub open spec fn cache_url_of(source: CacheUrl) -> Seq<char> {
    match source {
        CacheUrl::Given(url) => url@,
        CacheUrl::Fetched(body) => trimmed(body@),
    }
}

/// The address of the file to fetch for the binary cache of a channel: none
/// where the caller gives the address of the cache.
pub fn binary_cache_url_to_fetch(channel_url: &str, cache_url: Option<&str>) -> (r: Option<String>)
    ensures
        match r {
            Some(url) => cache_url is None && url@ == channel_url@ + "/binary-cache-url"@,
            None => cache_url is Some,
        },
{
    match cache_url {
        Some(_) => None,
        None => Some(binary_cache_url_url(channel_url)),
    }
}

/// Puts together what was read of a channel. `revision_before` and
/// `revision_after` are the contents of the revision file read before and
/// after the other files, `store_paths_xz` the content of the list of store
/// paths. Fails where a revision is none, with `InvalidRevision`; where
/// the list cannot be read, with `InvalidStorePaths`; where the second
/// revision differs from the first, with `RevisionMismatch`; in this order.
pub fn get_nix_channel(
    channel_url: &str,
    revision_before: String,
    fetch_time: FetchTime,
    cache_url: CacheUrl,
    store_paths_xz: &[u8],
    revision_after: String,
) -> (r: Result<NixChannelInfo, Error>)
    ensures
        match r {
            Ok(info) => {
                &&& is_git_revision(revision_before@)
                &&& revision_after@ == revision_before@
                &&& store_paths_of(store_paths_xz@) == Ok::<Seq<Seq<char>>, InvalidStorePaths>(
                    path_texts(info.root_paths@),
                )
                &&& info.channel_url@ == channel_url@
                &&& info.cache_url@ == cache_url_of(cache_url)
                &&& info.git_revision@ == revision_before@
                &&& info.fetch_time == fetch_time
            },
            Err(Error::InvalidRevision) => !is_git_revision(revision_before@) || (store_paths_of(
                store_paths_xz@,
            ) is Ok && !is_git_revision(revision_after@)),
            Err(Error::InvalidStorePaths(cause)) => is_git_revision(revision_before@)
                && store_paths_of(store_paths_xz@) == Err::<Seq<Seq<char>>, InvalidStorePaths>(
                cause,
            ),
            Err(Error::RevisionMismatch) => is_git_revision(revision_before@) && store_paths_of(
                store_paths_xz@,
            ) is Ok && is_git_revision(revision_after@) && revision_after@ != revision_before@,
            Err(_) => false,
        },
{
    let git_revision = match get_git_revision(revision_before) {
        Ok(rev) => rev,
        Err(e) => {
            return Err(e);
        },
    };
    let cache_url = match cache_url {
        CacheUrl::Given(url) => url,
        CacheUrl::Fetched(body) => trim(body.as_str()),
    };
    let root_paths = match get_store_paths(store_paths_xz) {
        Ok(paths) => paths,
        Err(e) => {
            return Err(e);
        },
    };
    let after = match get_git_revision(revision_after) {
        Ok(rev) => rev,
        Err(e) => {
            return Err(e);
        },
    };
    if !(git_revision == after) {
        return Err(Error::RevisionMismatch);
    }
    Ok(
        NixChannelInfo {
            channel_url: channel_url.to_owned(),
            cache_url,
            git_revision,
            fetch_time,
            root_paths,
        },
    )
}

impl NixChannelInfo {
    /// The root that records this snapshot: pending, with all that is
    /// known of the channel.
    pub fn root(&self) -> (r: Root)
        ensures
            r@ == (RootView {
                channel_url: Some(self.channel_url@),
                cache_url: Some(self.cache_url@),
                git_revision: Some(self.git_revision@),
                fetch_time: Some(self.fetch_time.spec_text()),
                status: RootStatus::Pending,
            }),
    {
        Root {
            channel_url: Some(self.channel_url.clone()),
            cache_url: Some(self.cache_url.clone()),
            git_revision: Some(self.git_revision.clone()),
            fetch_time: Some(self.fetch_time.duplicate()),
            status: RootStatus::Pending,
        }
    }
}

/// The hashes of a list of store paths.
pub fn hashes_of(paths: &Vec<StorePath>) -> (r: Vec<StorePathHash>)
    ensures
        r@.len() == paths@.len(),
        forall|i: int| 0 <= i < r@.len() ==> (#[trigger] r@[i])@ == paths@[i].spec_hash(),
{
    let mut out: Vec<StorePathHash> = Vec::new();
    let mut i: usize = 0;
    while i < paths.len()
        invariant
            i <= paths@.len(),
            out@.len() == i,
            forall|k: int| 0 <= k < i ==> (#[trigger] out@[k])@ == paths@[k].spec_hash(),
        decreases paths.len() - i,
    {
        out.push(paths[i].hash());
        i += 1;
    }
    out
}

/// Begins the crawl of the metadata of `root_paths` and of all that they
/// refer to, in the binary cache at `cache_url`. The crawl has met every
/// root; the caller drives it with `spawn_fetchers` and `on_fetched` until
/// nothing is awaited, and commits it with `add_root_rec` or `save_all`.
pub fn fetch_meta_rec(db: &Database, cache_url: &str, root_paths: &Vec<StorePath>) -> (r: Result<
    Fetcher,
    Error,
>)
    requires
        db.wf(),
    ensures
        r matches Ok(f) && {
            &&& f.wf()
            &&& crawl_inv(f@, db@)
            &&& roots_known(f@)
            &&& f@.root_hashes.len() == root_paths@.len()
            &&& forall|i: int|
                0 <= i < root_paths@.len() ==> #[trigger] f@.root_hashes[i]
                    == root_paths@[i].spec_hash()
            &&& f@ == add_todos(empty_crawl(cache_url@, f@.root_hashes), db@, f@.root_hashes)
        },
{
    let hashes = hashes_of(root_paths);
    let ghost texts = hash_texts(hashes@);
    let r = Fetcher::new(db, cache_url.to_owned(), hashes);
    proof {
        crate::update::fetch_meta_rec::lemma_add_todos_roots(
            empty_crawl(cache_url@, texts),
            db@,
            texts,
        );
    }
    r
}

/// Commits a crawl that awaits nothing any more and records `root`, which
/// pins the roots of the crawl; gives the id of the root. The roots that
/// were there stay, and the new one comes after them. The catalog stays as
/// it was where it has no room for the root or the commit fails. After the
/// commit the catalog holds every store path that the crawl has met, and
/// where it held all that was read before, its rows stay as they were.
pub fn add_root_rec(fetcher: Fetcher, db: &mut Database, root: &Root) -> (r: Result<i64, Error>)
    requires
        fetcher.wf(),
        old(db).wf(),
        crawl_inv(fetcher@, old(db)@),
        roots_known(fetcher@),
    ensures
        final(db).wf(),
        r is Err ==> final(db)@ == old(db)@,
        match r {
            Ok(id) => {
                &&& has_room_for_root(old(db)@)
                &&& is_acyclic(fetcher@.graph.edges)
                &&& forall|v: int|
                    0 <= v < fetcher@.states.len() ==> !(#[trigger] fetcher@.states[v] is Fetching)
                &&& has_room(old(db)@, fetcher@.states.len())
                &&& extends(old(db)@, DatabaseView { roots: old(db)@.roots, ..final(db)@ })
                &&& all_held(fetcher@, old(db)@) ==> final(db)@.nars == old(db)@.nars
                &&& forall|v: int|
                    0 <= v < fetcher@.states.len() ==> crate::hash_index::position(
                        crate::database::row_hashes(final(db)@.nars),
                        #[trigger] fetcher@.graph.nodes[v],
                    ) is Some
                &&& forall|i: int|
                    old(db)@.nars.len() <= i < final(db)@.nars.len() ==> #[trigger] is_row_of_read(
                        fetcher@.states,
                        final(db)@.nars,
                        i,
                    )
                &&& id == old(db)@.roots.len() + 1
                &&& final(db)@.roots == old(db)@.roots.push(
                    RootRowView {
                        root: root@,
                        pinned: resolve_hashes(final(db)@.nars, fetcher@.root_hashes),
                    },
                )
                &&& final(db)@.roots[id - 1].pinned.len() == fetcher@.root_hashes.len()
                &&& forall|i: int|
                    0 <= i < fetcher@.root_hashes.len() ==> nar_id_of_hash(
                        final(db)@.nars,
                        #[trigger] fetcher@.root_hashes[i],
                    ) == Some(final(db)@.roots[id - 1].pinned[i])
                &&& forall|v: int|
                    0 <= v < fetcher@.states.len() ==> (#[trigger] fetcher@.states[v] matches NarStateView::Fetched(
                        n,
                    ) ==> is_committed(old(db)@, final(db)@, n))
            },
            Err(Error::CyclicReferences) => has_room_for_root(old(db)@) && !is_acyclic(
                fetcher@.graph.edges,
            ),
            Err(Error::IncompleteFetch) => has_room_for_root(old(db)@) && is_acyclic(
                fetcher@.graph.edges,
            ) && exists|v: int|
                0 <= v < fetcher@.states.len() && #[trigger] fetcher@.states[v] is Fetching,
            Err(Error::Database(cause)) => cause is InvalidDatabase && (!has_room_for_root(
                old(db)@,
            ) || (is_acyclic(fetcher@.graph.edges) && (forall|v: int|
                0 <= v < fetcher@.states.len() ==> !(#[trigger] fetcher@.states[v] is Fetching))
                && !has_room(old(db)@, fetcher@.states.len()))),
            Err(_) => false,
        },
{
    let ghost f = fetcher@;
    let ghost d0 = db@;
    if db.root_count() as u128 + 1 >= i64::MAX as u128 {
        return Err(
            Error::Database(crate::database::Error::InvalidDatabase("Too many roots".to_owned())),
        );
    }
    let hashes = fetcher.root_hashes();
    let ids = match fetcher.save_all(db) {
        Ok(ids) => ids,
        Err(e) => {
            return Err(e);
        },
    };
    let ghost d1 = db@;
    match db.insert_root(root, &hashes) {
        Ok(id) => {
            proof {
                let keys = crate::database::row_hashes(d1.nars);
                let texts = hash_texts(hashes@);
                assert(texts =~= f.root_hashes);
                assert forall|k: int| 0 <= k < texts.len() implies crate::hash_index::position(
                    keys,
                    #[trigger] texts[k],
                ) is Some by {
                    assert(nar_id_of_hash(d1.nars, f.root_hashes[k]) == Some(ids@[k] as int));
                }
                crate::database::lemma_resolve_all(keys, texts);
                assert(db@.nars == d1.nars);
            }
            Ok(id)
        },
        Err(e) => Err(Error::Database(e)),
    }
}

/// Begins to bring a channel into the catalog: gives the root that records
/// the snapshot and the crawl of its store paths.
pub fn add_nix_channel_rec(db: &Database, info: &NixChannelInfo) -> (r: Result<
    (Root, Fetcher),
    Error,
>)
    requires
        db.wf(),
    ensures
        r matches Ok(begun) && {
            &&& begun.0@ == (RootView {
                channel_url: Some(info.channel_url@),
                cache_url: Some(info.cache_url@),
                git_revision: Some(info.git_revision@),
                fetch_time: Some(info.fetch_time.spec_text()),
                status: RootStatus::Pending,
            })
            &&& begun.1.wf()
            &&& crawl_inv(begun.1@, db@)
            &&& roots_known(begun.1@)
            &&& begun.1@ == add_todos(
                empty_crawl(info.cache_url@, begun.1@.root_hashes),
                db@,
                begun.1@.root_hashes,
            )
            &&& begun.1@.root_hashes.len() == info.root_paths@.len()
            &&& forall|i: int|
                0 <= i < info.root_paths@.len() ==> #[trigger] begun.1@.root_hashes[i]
                    == info.root_paths@[i].spec_hash()
        },
{
    let root = info.root();
    match fetch_meta_rec(db, info.cache_url.as_str(), &info.root_paths) {
        Ok(fetcher) => Ok((root, fetcher)),
        Err(e) => Err(e),
    }
}

} // verus!
