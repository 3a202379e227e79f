//! Store paths, artifact metadata and the narinfo text format.

use vstd::prelude::*;
use vstd::std_specs::convert::TryFromSpecImpl;
use vstd::string::*;
use vstd::utf8::*;

use crate::database::nar_info::InvalidNarInfo;
use crate::text::{ascii_chars, is_ascii_bytes, lemma_ascii_bytes_decode, str_from_utf8};

verus! {

/// Number of characters of a store path hash.
pub const HASH_LEN: usize = 32;

/// Length of `"/nix/store/"`, the part of a store path before the hash.
pub const STORE_PREFIX_LEN: usize = 11;

/// Position of the `-` between hash and name.
pub const SEP_POS: usize = 43;

/// Shortest store path: prefix, hash, separator and a name of one character.
pub const MIN_LEN: usize = 45;

/// Longest store path.
pub const MAX_LEN: usize = 212;

/// The alphabet of a store path hash: `[a-z0-9]` without `e`, `o`, `u`, `t`.
pub open spec fn is_hash_char(c: char) -> bool {
    (('a' <= c && c <= 'z') || ('0' <= c && c <= '9')) && c != 'e' && c != 'o' && c != 'u' && c
        != 't'
}

/// The alphabet of a store path name: `[A-Za-z0-9+\-._?=]`.
pub open spec fn is_name_char(c: char) -> bool {
    ('a' <= c && c <= 'z') || ('A' <= c && c <= 'Z') || ('0' <= c && c <= '9') || c == '+' || c
        == '-' || c == '.' || c == '_' || c == '?' || c == '='
}

/// Every character of `s` is in the hash alphabet.
pub open spec fn is_valid_hash(s: Seq<char>) -> bool {
    forall|i: int| 0 <= i < s.len() ==> is_hash_char(#[trigger] s[i])
}

/// Every character of `s` is in the name alphabet.
pub open spec fn is_valid_name(s: Seq<char>) -> bool {
    forall|i: int| 0 <= i < s.len() ==> is_name_char(#[trigger] s[i])
}

/// Why a string is not a store path.
#[derive(Debug, Clone, Copy, PartialEq, Eq, Structural)]
pub enum InvalidStorePath {
    /// The byte length is outside `[MIN_LEN, MAX_LEN]`.
    Length,
    /// Some character is not ASCII.
    NotAscii,
    /// The path does not begin with the store directory, `/nix/store/`.
    InvalidPrefix,
    /// The character at `SEP_POS` is not `-`.
    MissingSeparator,
    /// The hash holds a character outside its alphabet.
    InvalidHash,
    /// The name holds a character outside its alphabet.
    InvalidName,
}

impl InvalidStorePath {
    /// The reason in words.
    pub open spec fn spec_message(self) -> Seq<char> {
        match self {
            InvalidStorePath::Length => "Length is not in range [45, 212]"@,
            InvalidStorePath::NotAscii => "Not ascii string"@,
            InvalidStorePath::InvalidPrefix => "Store directory `/nix/store/` not found"@,
            InvalidStorePath::MissingSeparator => "Hash seperator `-` not found"@,
            InvalidStorePath::InvalidHash => "Invalid hash"@,
            InvalidStorePath::InvalidName => "Invalid name"@,
        }
    }

    /// The reason in words.
    pub fn message(&self) -> (r: &'static str)
        ensures
            r@ == self.spec_message(),
    {
        match self {
            InvalidStorePath::Length => "Length is not in range [45, 212]",
            InvalidStorePath::NotAscii => "Not ascii string",
            InvalidStorePath::InvalidPrefix => "Store directory `/nix/store/` not found",
            InvalidStorePath::MissingSeparator => "Hash seperator `-` not found",
            InvalidStorePath::InvalidHash => "Invalid hash",
            InvalidStorePath::InvalidName => "Invalid name",
        }
    }
}

/// The store directory with the slash that ends it: what every store path
/// begins with.
pub open spec fn store_prefix() -> Seq<char> {
    "/nix/store/"@
}

/// The first reason, in the order of the checks, for which `s` is rejected as a
/// store path; `None` when `s` is a store path: `/nix/store/<hash>-<name>`.
/// The checks are, in order: length, ASCII, store directory, separator,
/// hash, name.
pub open spec fn store_path_error(s: Seq<char>) -> Option<InvalidStorePath> {
    let n = encode_utf8(s).len();
    if !(MIN_LEN <= n && n <= MAX_LEN) {
        Some(InvalidStorePath::Length)
    } else if !is_ascii_chars(s) {
        Some(InvalidStorePath::NotAscii)
    } else if s.subrange(0, STORE_PREFIX_LEN as int) != store_prefix() {
        Some(InvalidStorePath::InvalidPrefix)
    } else if s[SEP_POS as int] != '-' {
        Some(InvalidStorePath::MissingSeparator)
    } else if !is_valid_hash(s.subrange(STORE_PREFIX_LEN as int, SEP_POS as int)) {
        Some(InvalidStorePath::InvalidHash)
    } else if !is_valid_name(s.subrange(SEP_POS + 1, s.len() as int)) {
        Some(InvalidStorePath::InvalidName)
    } else {
        None
    }
}

/// `s` is the text of a store path.
pub open spec fn is_store_path(s: Seq<char>) -> bool {
    store_path_error(s) is None
}

/// The hash part of the text of a store path.
pub open spec fn path_hash(p: Seq<char>) -> Seq<char> {
    p.subrange(STORE_PREFIX_LEN as int, SEP_POS as int)
}

/// The basename of the text of a store path: hash, `-`, name.
pub open spec fn path_basename(p: Seq<char>) -> Seq<char> {
    p.subrange(STORE_PREFIX_LEN as int, p.len() as int)
}

/// A store path is its store directory, a slash, its hash, `-` and its name;
/// it holds no line feed and no carriage return.
pub proof fn lemma_store_path_parts(p: Seq<char>)
    requires
        is_store_path(p),
    ensures
        p == "/nix/store"@ + "/"@ + path_hash(p) + "-"@ + p.subrange(SEP_POS + 1, p.len() as int),
        p == store_prefix() + path_basename(p),
        p.len() >= MIN_LEN,
        forall|i: int| 0 <= i < p.len() ==> p[i] != '\n' && p[i] != '\r',
{
    reveal_strlit("/nix/store/");
    reveal_strlit("/nix/store");
    reveal_strlit("/");
    reveal_strlit("-");
    is_ascii_chars_encode_utf8(p);
    let prefix = p.subrange(0, STORE_PREFIX_LEN as int);
    let hash = path_hash(p);
    let name = p.subrange(SEP_POS + 1, p.len() as int);
    assert(p =~= "/nix/store"@ + "/"@ + hash + "-"@ + name) by {
        let q = "/nix/store"@ + "/"@ + hash + "-"@ + name;
        assert(q.len() == p.len());
        assert forall|i: int| 0 <= i < p.len() implies p[i] == q[i] by {
            if i < 11 {
                assert(prefix[i] == p[i]);
            } else if i < 43 {
                assert(hash[i - 11] == p[i]);
            } else if i > 43 {
                assert(name[i - 44] == p[i]);
            }
        }
    }
    assert(p =~= store_prefix() + path_basename(p));
    assert forall|i: int| 0 <= i < p.len() implies p[i] != '\n' && p[i] != '\r' by {
        if i < 11 {
            assert(prefix[i] == p[i]);
        } else if i < 43 {
            assert(is_hash_char(hash[i - 11]));
            assert(hash[i - 11] == p[i]);
        } else if i > 43 {
            assert(is_name_char(name[i - 44]));
            assert(name[i - 44] == p[i]);
        }
    }
}

/// What parsing `s` as a store path gives: the text itself, or the reason for
/// which it is rejected.
pub open spec fn parse_store_path(s: Seq<char>) -> Result<Seq<char>, InvalidStorePath> {
    match store_path_error(s) {
        None => Ok(s),
        Some(e) => Err(e),
    }
}

/// Whether the outcome of parsing `s` is the one that `parse_store_path` gives.
pub open spec fn is_parsed_store_path(r: Result<StorePath, InvalidStorePath>, s: Seq<char>) -> bool {
    match r {
        Ok(p) => parse_store_path(s) == Ok::<Seq<char>, InvalidStorePath>(p@),
        Err(e) => parse_store_path(s) == Err::<Seq<char>, InvalidStorePath>(e),
    }
}

/// Parsing the text of a store path gives the same store path back.
pub proof fn lemma_store_path_round_trip(p: StorePath)
    requires
        is_store_path(p@),
    ensures
        parse_store_path(p@) == Ok::<Seq<char>, InvalidStorePath>(p@),
{
}

fn check_hash_char(c: char) -> (r: bool)
    ensures
        r == is_hash_char(c),
{
    (('a' <= c && c <= 'z') || ('0' <= c && c <= '9')) && c != 'e' && c != 'o' && c != 'u' && c
        != 't'
}

fn check_name_char(c: char) -> (r: bool)
    ensures
        r == is_name_char(c),
{
    ('a' <= c && c <= 'z') || ('A' <= c && c <= 'Z') || ('0' <= c && c <= '9') || c == '+' || c
        == '-' || c == '.' || c == '_' || c == '?' || c == '='
}

/// Whether `s[from..to]` lies in the hash alphabet.
fn check_hash(s: &str, from: usize, to: usize) -> (r: bool)
    requires
        s.is_ascii(),
        from <= to <= s@.len(),
    ensures
        r == is_valid_hash(s@.subrange(from as int, to as int)),
{
    let mut i: usize = from;
    while i < to
        invariant
            s.is_ascii(),
            from <= i <= to <= s@.len(),
            is_valid_hash(s@.subrange(from as int, i as int)),
        decreases to - i,
    {
        let c = s.get_ascii(i) as char;
        if !check_hash_char(c) {
            assert(s@.subrange(from as int, to as int)[i - from] == c);
            return false;
        }
        assert forall|k: int| 0 <= k < i + 1 - from implies is_hash_char(
            #[trigger] s@.subrange(from as int, i + 1)[k],
        ) by {
            if k < i - from {
                assert(s@.subrange(from as int, i as int)[k] == s@[from + k]);
            }
        }
        i += 1;
    }
    true
}

/// Whether `s[from..to]` lies in the name alphabet.
fn check_name(s: &str, from: usize, to: usize) -> (r: bool)
    requires
        s.is_ascii(),
        from <= to <= s@.len(),
    ensures
        r == is_valid_name(s@.subrange(from as int, to as int)),
{
    let mut i: usize = from;
    while i < to
        invariant
            s.is_ascii(),
            from <= i <= to <= s@.len(),
            is_valid_name(s@.subrange(from as int, i as int)),
        decreases to - i,
    {
        let c = s.get_ascii(i) as char;
        if !check_name_char(c) {
            assert(s@.subrange(from as int, to as int)[i - from] == c);
            return false;
        }
        assert forall|k: int| 0 <= k < i + 1 - from implies is_name_char(
            #[trigger] s@.subrange(from as int, i + 1)[k],
        ) by {
            if k < i - from {
                assert(s@.subrange(from as int, i as int)[k] == s@[from + k]);
            }
        }
        i += 1;
    }
    true
}

/// Whether `s` begins with the store directory.
fn check_prefix(s: &str) -> (r: bool)
    requires
        s.is_ascii(),
        s@.len() >= STORE_PREFIX_LEN,
    ensures
        r == (s@.subrange(0, STORE_PREFIX_LEN as int) == store_prefix()),
{
    let prefix = crate::text::chars_of("/nix/store/");
    proof {
        reveal_strlit("/nix/store/");
    }
    let mut i: usize = 0;
    while i < STORE_PREFIX_LEN
        invariant
            s.is_ascii(),
            s@.len() >= STORE_PREFIX_LEN,
            i <= STORE_PREFIX_LEN,
            prefix@ == store_prefix(),
            prefix@.len() == STORE_PREFIX_LEN,
            forall|k: int| 0 <= k < i ==> s@[k] == prefix@[k],
        decreases STORE_PREFIX_LEN - i,
    {
        let c = s.get_ascii(i) as char;
        if c != prefix[i] {
            assert(s@.subrange(0, STORE_PREFIX_LEN as int)[i as int] == c);
            return false;
        }
        i += 1;
    }
    assert(s@.subrange(0, STORE_PREFIX_LEN as int) =~= store_prefix());
    true
}

/// Checks `path` against the rules of a store path, in the order length, ASCII,
/// store directory, separator, hash, name.
pub fn check_store_path(path: &str) -> (r: Option<InvalidStorePath>)
    ensures
        r == store_path_error(path@),
{
    let n = path.as_bytes().len();
    if !(MIN_LEN <= n && n <= MAX_LEN) {
        return Some(InvalidStorePath::Length);
    }
    if !path.is_ascii() {
        return Some(InvalidStorePath::NotAscii);
    }
    proof {
        is_ascii_chars_encode_utf8(path@);
    }
    if !check_prefix(path) {
        return Some(InvalidStorePath::InvalidPrefix);
    }
    let sep = path.get_ascii(SEP_POS) as char;
    assert(sep == path@[SEP_POS as int]);
    if sep != '-' {
        return Some(InvalidStorePath::MissingSeparator);
    }
    if !check_hash(path, STORE_PREFIX_LEN, SEP_POS) {
        return Some(InvalidStorePath::InvalidHash);
    }
    if !check_name(path, SEP_POS + 1, n) {
        return Some(InvalidStorePath::InvalidName);
    }
    None
}

/// The hash part of a store path: `HASH_LEN` characters of the hash alphabet.
#[derive(Debug, Clone, Copy, PartialEq, Eq, Hash)]
pub struct StorePathHash([u8; 32]);

impl View for StorePathHash {
    type V = Seq<char>;

    closed spec fn view(&self) -> Seq<char> {
        ascii_chars(self.0@)
    }
}

impl StorePathHash {
    #[verifier::type_invariant]
    spec fn well_formed(self) -> bool {
        is_ascii_bytes(self.0@) && is_valid_hash(ascii_chars(self.0@))
    }

    /// The hash as text.
    pub fn as_str(&self) -> (r: &str)
        ensures
            r@ == self@,
            r@.len() == HASH_LEN,
            is_valid_hash(r@),
    {
        proof {
            use_type_invariant(self);
            lemma_ascii_bytes_decode(self.0@);
        }
        match str_from_utf8(self.0.as_slice()) {
            Some(s) => s,
            None => "",
        }
    }

    /// The hash as bytes, one per character.
    pub fn as_bytes(&self) -> (r: &[u8])
        ensures
            ascii_chars(r@) == self@,
            is_ascii_bytes(r@),
            is_valid_hash(self@),
            r@.len() == HASH_LEN,
    {
        proof {
            use_type_invariant(self);
        }
        self.0.as_slice()
    }

    /// The hash as an owned string.
    pub fn to_string(&self) -> (r: String)
        ensures
            r@ == self@,
    {
        self.as_str().to_owned()
    }

    /// Whether both hashes hold the same text.
    pub fn same(&self, other: &StorePathHash) -> (r: bool)
        ensures
            r == (self@ == other@),
    {
        let mut i: usize = 0;
        while i < 32
            invariant
                i <= 32,
                forall|k: int| 0 <= k < i ==> self.0@[k] == other.0@[k],
            decreases 32 - i,
        {
            if self.0[i] != other.0[i] {
                proof {
                    use_type_invariant(self);
                    use_type_invariant(other);
                    assert(self@[i as int] == self.0@[i as int] as char);
                    assert(other@[i as int] == other.0@[i as int] as char);
                }
                return false;
            }
            i += 1;
        }
        assert(self@ =~= other@);
        true
    }
}

/// A full store path, `/nix/store/<hash>-<name>`.
#[derive(Debug, PartialEq, Eq)]
pub struct StorePath {
    path: String,
}

impl View for StorePath {
    type V = Seq<char>;

    closed spec fn view(&self) -> Seq<char> {
        self.path@
    }
}

impl StorePath {
    #[verifier::type_invariant]
    spec fn well_formed(self) -> bool {
        is_store_path(self.path@)
    }

    /// The hash part of the path, as a sequence of characters.
    pub open spec fn spec_hash(self) -> Seq<char> {
        self@.subrange(STORE_PREFIX_LEN as int, SEP_POS as int)
    }

    /// The name part of the path, as a sequence of characters.
    pub open spec fn spec_name(self) -> Seq<char> {
        self@.subrange(SEP_POS + 1, self@.len() as int)
    }

    /// The full path.
    pub fn path(&self) -> (r: &str)
        ensures
            r@ == self@,
            is_store_path(self@),
    {
        proof {
            use_type_invariant(self);
        }
        self.path.as_str()
    }

    /// The store directory, without a trailing slash: what the path begins
    /// with, so that the path is the root, `/`, the hash, `-` and the name.
    pub fn root(&self) -> (r: &str)
        ensures
            r@ == "/nix/store"@,
            self@ == r@ + "/"@ + self.spec_hash() + "-"@ + self.spec_name(),
    {
        proof {
            use_type_invariant(self);
            lemma_store_path_parts(self.path@);
        }
        "/nix/store"
    }

    /// The hash part of the path.
    pub fn hash_str(&self) -> (r: &str)
        ensures
            r@ == self.spec_hash(),
    {
        proof {
            use_type_invariant(self);
            is_ascii_chars_encode_utf8(self.path@);
        }
        self.path.as_str().substring_ascii(STORE_PREFIX_LEN, SEP_POS)
    }

    /// The hash part of the path, as a value of its own.
    pub fn hash(&self) -> (r: StorePathHash)
        ensures
            r@ == self.spec_hash(),
    {
        proof {
            use_type_invariant(self);
            is_ascii_chars_encode_utf8(self.path@);
        }
        let s = self.path.as_str();
        let mut bytes = [0u8; 32];
        let mut i: usize = 0;
        while i < 32
            invariant
                i <= 32,
                s@ == self.path@,
                s.is_ascii(),
                s@.len() >= MIN_LEN,
                forall|k: int|
                    0 <= k < i ==> #[trigger] bytes@[k] < 128 && bytes@[k] as char == s@[11 + k],
            decreases 32 - i,
        {
            bytes[i] = s.get_ascii(STORE_PREFIX_LEN + i);
            i += 1;
        }
        assert(ascii_chars(bytes@) =~= self.spec_hash()) by {
            assert forall|k: int| 0 <= k < 32 implies ascii_chars(bytes@)[k]
                == self.spec_hash()[k] by {
                assert(bytes@[k] < 128);
            }
        }
        StorePathHash(bytes)
    }

    /// A copy of this store path.
    pub fn duplicate(&self) -> (r: StorePath)
        ensures
            r@ == self@,
    {
        proof {
            use_type_invariant(self);
        }
        StorePath { path: self.path.clone() }
    }

    /// The basename of the path: hash, `-`, name.
    pub fn basename(&self) -> (r: &str)
        ensures
            r@ == path_basename(self@),
    {
        proof {
            use_type_invariant(self);
            is_ascii_chars_encode_utf8(self.path@);
        }
        let s = self.path.as_str();
        s.substring_ascii(STORE_PREFIX_LEN, s.len())
    }

    /// The full path as an owned string.
    pub fn to_string(&self) -> (r: String)
        ensures
            r@ == self@,
    {
        self.path.clone()
    }

    /// The name part of the path.
    pub fn name(&self) -> (r: &str)
        ensures
            r@ == self.spec_name(),
    {
        proof {
            use_type_invariant(self);
            is_ascii_chars_encode_utf8(self.path@);
        }
        let s = self.path.as_str();
        s.substring_ascii(SEP_POS + 1, s.len())
    }
}

/// The conversion keeps the string where it is a store path.
impl TryFromSpecImpl<String> for StorePath {
    open spec fn obeys_try_from_spec() -> bool {
        true
    }

    closed spec fn try_from_spec(path: String) -> Result<StorePath, InvalidStorePath> {
        match store_path_error(path@) {
            Some(e) => Err(e),
            None => Ok(StorePath { path }),
        }
    }
}

impl TryFrom<String> for StorePath {
    type Error = InvalidStorePath;

    fn try_from(path: String) -> (r: Result<StorePath, InvalidStorePath>)
        ensures
            is_parsed_store_path(r, path@),
    {
        match check_store_path(path.as_str()) {
            Some(e) => Err(e),
            None => Ok(StorePath { path }),
        }
    }
}

/// The conversion makes a new string, so its outcome is stated through the
/// view alone, in the contract of `try_from`.
impl<'a> TryFromSpecImpl<&'a str> for StorePath {
    open spec fn obeys_try_from_spec() -> bool {
        false
    }

    closed spec fn try_from_spec(path: &'a str) -> Result<StorePath, InvalidStorePath> {
        match store_path_error(path@) {
            Some(e) => Err(e),
            None => Ok(StorePath { path: choose|s: String| s@ == path@ }),
        }
    }
}

impl<'a> TryFrom<&'a str> for StorePath {
    type Error = InvalidStorePath;

    fn try_from(path: &'a str) -> (r: Result<StorePath, InvalidStorePath>)
        ensures
            is_parsed_store_path(r, path@),
    {
        match check_store_path(path) {
            Some(e) => Err(e),
            None => Ok(StorePath { path: path.to_owned() }),
        }
    }
}

/// `bytes` are the bytes of the hash `hash`: one ASCII byte for each of its
/// characters, in order.
pub open spec fn is_bytes_of(bytes: &[u8], hash: StorePathHash) -> bool {
    &&& bytes@.len() == HASH_LEN
    &&& is_ascii_bytes(bytes@)
    &&& ascii_chars(bytes@) == hash@
}

/// A hash can stand where its bytes are asked for.
impl std::borrow::Borrow<[u8]> for StorePathHash {
    /// The hash as bytes, one per character, as `as_bytes` gives them.
    fn borrow(&self) -> (r: &[u8])
        ensures
            is_bytes_of(r, *self),
    {
        self.as_bytes()
    }
}

/// Why a text could not be read.
#[derive(Debug, Clone, Copy, PartialEq, Eq, Structural)]
pub enum ParseError {
    /// The text is not a store path.
    InvalidStorePath(InvalidStorePath),
    /// The text is not a narinfo.
    InvalidNarInfo(InvalidNarInfo),
}

impl ParseError {
    /// The error in words.
    pub open spec fn spec_message(self) -> Seq<char> {
        match self {
            ParseError::InvalidStorePath(e) => e.spec_message(),
            ParseError::InvalidNarInfo(e) => "Invalid narinfo: "@ + e.spec_message(),
        }
    }

    /// The error in words.
    pub fn to_string(&self) -> (r: String)
        ensures
            r@ == self.spec_message(),
    {
        match self {
            ParseError::InvalidStorePath(e) => e.message().to_owned(),
            ParseError::InvalidNarInfo(e) => {
                let mut r = "Invalid narinfo: ".to_owned();
                r.append(e.message());
                r
            },
        }
    }
}

/// When a root is usable.
#[derive(Debug, PartialEq, Eq, Clone, Copy, Structural)]
pub enum RootStatus {
    Pending,
    Downloading,
    Available,
}

impl RootStatus {
    /// The letter under which the status is stored.
    pub fn code(&self) -> (r: &'static str)
        ensures
            r@ == match self {
                RootStatus::Pending => "P"@,
                RootStatus::Downloading => "D"@,
                RootStatus::Available => "A"@,
            },
    {
        match self {
            RootStatus::Pending => "P",
            RootStatus::Downloading => "D",
            RootStatus::Available => "A",
        }
    }

    /// The status that is stored under a letter.
    pub fn from_code(code: &str) -> (r: Option<RootStatus>)
        ensures
            r == if code@ == "P"@ {
                Some(RootStatus::Pending)
            } else if code@ == "D"@ {
                Some(RootStatus::Downloading)
            } else if code@ == "A"@ {
                Some(RootStatus::Available)
            } else {
                None
            },
    {
        let chars = crate::text::chars_of(code);
        let n = chars.len();
        assert(chars@.subrange(0, n as int) =~= code@);
        if crate::text::range_is(&chars, 0, n, "P") {
            Some(RootStatus::Pending)
        } else if crate::text::range_is(&chars, 0, n, "D") {
            Some(RootStatus::Downloading)
        } else if crate::text::range_is(&chars, 0, n, "A") {
            Some(RootStatus::Available)
        } else {
            None
        }
    }
}

impl Default for RootStatus {
    fn default() -> (r: RootStatus)
        ensures
            r == RootStatus::Pending,
    {
        RootStatus::Pending
    }
}

/// Whether an artifact is visible to the serving layer.
#[derive(Debug, PartialEq, Eq, Clone, Copy, Structural)]
pub enum NarStatus {
    Pending,
    Available,
    Trashed,
}

impl NarStatus {
    /// The letter under which the status is stored.
    pub fn code(&self) -> (r: &'static str)
        ensures
            r@ == match self {
                NarStatus::Pending => "P"@,
                NarStatus::Available => "A"@,
                NarStatus::Trashed => "T"@,
            },
    {
        match self {
            NarStatus::Pending => "P",
            NarStatus::Available => "A",
            NarStatus::Trashed => "T",
        }
    }

    /// The status that is stored under a letter.
    pub fn from_code(code: &str) -> (r: Option<NarStatus>)
        ensures
            r == if code@ == "P"@ {
                Some(NarStatus::Pending)
            } else if code@ == "A"@ {
                Some(NarStatus::Available)
            } else if code@ == "T"@ {
                Some(NarStatus::Trashed)
            } else {
                None
            },
    {
        let chars = crate::text::chars_of(code);
        let n = chars.len();
        assert(chars@.subrange(0, n as int) =~= code@);
        if crate::text::range_is(&chars, 0, n, "P") {
            Some(NarStatus::Pending)
        } else if crate::text::range_is(&chars, 0, n, "A") {
            Some(NarStatus::Available)
        } else if crate::text::range_is(&chars, 0, n, "T") {
            Some(NarStatus::Trashed)
        } else {
            None
        }
    }
}

impl Default for NarStatus {
    fn default() -> (r: NarStatus)
        ensures
            r == NarStatus::Pending,
    {
        NarStatus::Pending
    }
}

/// The view of an optional string.
pub open spec fn opt_view(o: Option<String>) -> Option<Seq<char>> {
    match o {
        Some(s) => Some(s@),
        None => None,
    }
}

/// Metadata of one artifact, as a narinfo states it.
#[derive(Debug, PartialEq, Eq)]
pub struct NarMeta {
    pub url: String,
    pub compression: Option<String>,
    pub file_hash: Option<String>,
    pub file_size: Option<u64>,
    pub nar_hash: String,
    pub nar_size: u64,
    pub deriver: Option<String>,
    pub sig: Option<String>,
    pub ca: Option<String>,
}

/// What a `NarMeta` holds.
pub struct NarMetaView {
    pub url: Seq<char>,
    pub compression: Option<Seq<char>>,
    pub file_hash: Option<Seq<char>>,
    pub file_size: Option<u64>,
    pub nar_hash: Seq<char>,
    pub nar_size: u64,
    pub deriver: Option<Seq<char>>,
    pub sig: Option<Seq<char>>,
    pub ca: Option<Seq<char>>,
}

impl View for NarMeta {
    type V = NarMetaView;

    open spec fn view(&self) -> NarMetaView {
        NarMetaView {
            url: self.url@,
            compression: opt_view(self.compression),
            file_hash: opt_view(self.file_hash),
            file_size: self.file_size,
            nar_hash: self.nar_hash@,
            nar_size: self.nar_size,
            deriver: opt_view(self.deriver),
            sig: opt_view(self.sig),
            ca: opt_view(self.ca),
        }
    }
}

/// A copy of an optional string.
pub fn duplicate_opt(o: &Option<String>) -> (r: Option<String>)
    ensures
        opt_view(r) == opt_view(*o),
{
    match o {
        Some(s) => Some(s.clone()),
        None => None,
    }
}

impl NarMeta {
    /// A copy of this metadata.
    pub fn duplicate(&self) -> (r: NarMeta)
        ensures
            r@ == self@,
    {
        NarMeta {
            url: self.url.clone(),
            compression: duplicate_opt(&self.compression),
            file_hash: duplicate_opt(&self.file_hash),
            file_size: self.file_size,
            nar_hash: self.nar_hash.clone(),
            nar_size: self.nar_size,
            deriver: duplicate_opt(&self.deriver),
            sig: duplicate_opt(&self.sig),
            ca: duplicate_opt(&self.ca),
        }
    }
}

/// One artifact: its store path, its metadata, and the basenames of the
/// artifacts it refers to, separated by single spaces.
#[derive(Debug, PartialEq, Eq)]
pub struct Nar {
    pub store_path: StorePath,
    pub meta: NarMeta,
    pub references: String,
}

/// What a `Nar` holds.
pub struct NarView {
    pub store_path: Seq<char>,
    pub meta: NarMetaView,
    pub references: Seq<char>,
}

impl Nar {
    /// A copy of this artifact.
    pub fn duplicate(&self) -> (r: Nar)
        ensures
            r@ == self@,
    {
        Nar {
            store_path: self.store_path.duplicate(),
            meta: self.meta.duplicate(),
            references: self.references.clone(),
        }
    }
}

impl View for Nar {
    type V = NarView;

    open spec fn view(&self) -> NarView {
        NarView { store_path: self.store_path@, meta: self.meta@, references: self.references@ }
    }
}

/// The RFC 3339 text, in UTC with `Z` and whole seconds, of the instant that
/// lies `secs` seconds after the Unix epoch; `None` where the calendar of the
/// `chrono` crate does not reach.
pub uninterp spec fn rfc3339_utc(secs: i64) -> Option<Seq<char>>;

/// `chrono::DateTime::from_timestamp` followed by `to_rfc3339_opts` with
/// `SecondsFormat::Secs` and `Z`: the text depends on the number of seconds
/// alone, and there is none where `from_timestamp` gives no date.
#[verifier::external_body]
fn format_rfc3339_utc(secs: i64) -> (r: Option<String>)
    ensures
        r is Some <==> rfc3339_utc(secs) is Some,
        r matches Some(text) ==> rfc3339_utc(secs) == Some(text@),
{
    match chrono::DateTime::from_timestamp(secs, 0) {
        Some(t) => Some(t.to_rfc3339_opts(chrono::SecondsFormat::Secs, true)),
        None => None,
    }
}

/// The instant at which a channel was fetched, with its RFC 3339 text.
#[derive(Debug, PartialEq, Eq)]
pub struct FetchTime {
    secs: i64,
    text: String,
}

impl FetchTime {
    #[verifier::type_invariant]
    spec fn well_formed(self) -> bool {
        rfc3339_utc(self.secs) == Some(self.text@)
    }

    /// Seconds since the Unix epoch.
    pub closed spec fn spec_secs(self) -> i64 {
        self.secs
    }

    /// The RFC 3339 text.
    pub closed spec fn spec_text(self) -> Seq<char> {
        self.text@
    }

    /// The instant `secs` seconds after the Unix epoch, where the calendar
    /// reaches it.
    pub fn from_unix_seconds(secs: i64) -> (r: Option<FetchTime>)
        ensures
            r is Some <==> rfc3339_utc(secs) is Some,
            r matches Some(t) ==> t.spec_secs() == secs && rfc3339_utc(secs) == Some(
                t.spec_text(),
            ),
    {
        match format_rfc3339_utc(secs) {
            Some(text) => Some(FetchTime { secs, text }),
            None => None,
        }
    }

    /// A copy of this instant.
    pub fn duplicate(&self) -> (r: FetchTime)
        ensures
            r.spec_secs() == self.spec_secs(),
            r.spec_text() == self.spec_text(),
    {
        proof {
            use_type_invariant(self);
        }
        FetchTime { secs: self.secs, text: self.text.clone() }
    }

    /// Seconds since the Unix epoch.
    pub fn unix_seconds(&self) -> (r: i64)
        ensures
            r == self.spec_secs(),
    {
        self.secs
    }

    /// The instant as RFC 3339 text, in UTC with whole seconds.
    pub fn to_rfc3339(&self) -> (r: &str)
        ensures
            r@ == self.spec_text(),
            rfc3339_utc(self.spec_secs()) == Some(r@),
    {
        proof {
            use_type_invariant(self);
        }
        self.text.as_str()
    }
}

/// One ingested snapshot of a channel: where it came from and when.
#[derive(Debug, Default)]
pub struct Root {
    pub channel_url: Option<String>,
    pub cache_url: Option<String>,
    pub git_revision: Option<String>,
    pub fetch_time: Option<FetchTime>,
    pub status: RootStatus,
}

/// What a `Root` holds; the fetch time as its RFC 3339 text.
pub struct RootView {
    pub channel_url: Option<Seq<char>>,
    pub cache_url: Option<Seq<char>>,
    pub git_revision: Option<Seq<char>>,
    pub fetch_time: Option<Seq<char>>,
    pub status: RootStatus,
}

impl View for Root {
    type V = RootView;

    open spec fn view(&self) -> RootView {
        RootView {
            channel_url: opt_view(self.channel_url),
            cache_url: opt_view(self.cache_url),
            git_revision: opt_view(self.git_revision),
            fetch_time: match self.fetch_time {
                Some(t) => Some(t.spec_text()),
                None => None,
            },
            status: self.status,
        }
    }
}

} // verus!
