//! The narinfo text format: one `Key: value` per line.

use vstd::prelude::*;
use vstd::string::*;

use crate::database::model::{
    is_parsed_store_path, is_store_path, opt_view, store_path_error, InvalidStorePath, Nar,
    NarMeta, NarMetaView, NarView, ParseError, StorePath, StorePathHash,
};
use crate::text::{
    chars_of, decimal, find_char, find_colon_space, find_separator, index_of, lemma_index_of,
    parse_u64, parse_u64_in, push_decimal, range_is, string_of,
};

verus! {

/// A narinfo field that holds a number.
#[derive(Debug, Clone, Copy, PartialEq, Eq, Structural)]
pub enum NumberField {
    FileSize,
    NarSize,
}

/// A narinfo field that every narinfo must hold.
#[derive(Debug, Clone, Copy, PartialEq, Eq, Structural)]
pub enum RequiredField {
    StorePath,
    Url,
    NarHash,
    NarSize,
    References,
}

/// Why a text is not a narinfo.
#[derive(Debug, Clone, Copy, PartialEq, Eq, Structural)]
pub enum InvalidNarInfo {
    /// A line that is not empty holds no `": "`.
    MissingColon,
    /// The key of a line is none of the known ones.
    UnknownField,
    /// The value of `StorePath` is not a store path.
    InvalidStorePath(InvalidStorePath),
    /// The value of a numeric field is not an unsigned number.
    InvalidNumber(NumberField),
    /// No line gives a field that is required.
    MissingField(RequiredField),
}

impl InvalidNarInfo {
    /// The reason in words.
    pub open spec fn spec_message(self) -> Seq<char> {
        match self {
            InvalidNarInfo::MissingColon => "Missing colon"@,
            InvalidNarInfo::UnknownField => "Unknown field"@,
            InvalidNarInfo::InvalidStorePath(_) => "Invalid StorePath"@,
            InvalidNarInfo::InvalidNumber(NumberField::FileSize) => "Invalid FileSize"@,
            InvalidNarInfo::InvalidNumber(NumberField::NarSize) => "Invalid NarSize"@,
            InvalidNarInfo::MissingField(RequiredField::StorePath) => "Missing StorePath"@,
            InvalidNarInfo::MissingField(RequiredField::Url) => "Missing URL"@,
            InvalidNarInfo::MissingField(RequiredField::NarHash) => "Missing NarHash"@,
            InvalidNarInfo::MissingField(RequiredField::NarSize) => "Missing NarSize"@,
            InvalidNarInfo::MissingField(RequiredField::References) => "Missing References"@,
        }
    }

    /// The reason in words.
    pub fn message(&self) -> (r: &'static str)
        ensures
            r@ == self.spec_message(),
    {
        match self {
            InvalidNarInfo::MissingColon => "Missing colon",
            InvalidNarInfo::UnknownField => "Unknown field",
            InvalidNarInfo::InvalidStorePath(_) => "Invalid StorePath",
            InvalidNarInfo::InvalidNumber(NumberField::FileSize) => "Invalid FileSize",
            InvalidNarInfo::InvalidNumber(NumberField::NarSize) => "Invalid NarSize",
            InvalidNarInfo::MissingField(RequiredField::StorePath) => "Missing StorePath",
            InvalidNarInfo::MissingField(RequiredField::Url) => "Missing URL",
            InvalidNarInfo::MissingField(RequiredField::NarHash) => "Missing NarHash",
            InvalidNarInfo::MissingField(RequiredField::NarSize) => "Missing NarSize",
            InvalidNarInfo::MissingField(RequiredField::References) => "Missing References",
        }
    }
}

/// The fields read so far while a narinfo is parsed.
pub struct NarFields {
    pub store_path: Option<Seq<char>>,
    pub url: Option<Seq<char>>,
    pub compression: Option<Seq<char>>,
    pub file_hash: Option<Seq<char>>,
    pub file_size: Option<u64>,
    pub nar_hash: Option<Seq<char>>,
    pub nar_size: Option<u64>,
    pub references: Option<Seq<char>>,
    pub deriver: Option<Seq<char>>,
    pub sig: Option<Seq<char>>,
    pub ca: Option<Seq<char>>,
}

/// No field read yet.
pub open spec fn no_fields() -> NarFields {
    NarFields {
        store_path: None,
        url: None,
        compression: None,
        file_hash: None,
        file_size: None,
        nar_hash: None,
        nar_size: None,
        references: None,
        deriver: None,
        sig: None,
        ca: None,
    }
}

/// `line` without one trailing carriage return.
pub open spec fn strip_cr(line: Seq<char>) -> Seq<char> {
    if line.len() > 0 && line.last() == '\r' {
        line.drop_last()
    } else {
        line
    }
}

/// The first line of `s`: what stands before the first line feed, without a
/// carriage return that precedes it; all of `s` when it holds no line feed.
pub open spec fn first_line(s: Seq<char>) -> Seq<char> {
    let i = index_of(s, '\n');
    if i < s.len() {
        strip_cr(s.subrange(0, i))
    } else {
        s
    }
}

/// What follows the first line of `s` and its line feed.
pub open spec fn after_first_line(s: Seq<char>) -> Seq<char> {
    let i = index_of(s, '\n');
    if 0 <= i < s.len() {
        s.subrange(i + 1, s.len() as int)
    } else {
        Seq::empty()
    }
}

/// The fields after `key` is given `value`: the field is set, replacing an
/// earlier value. The store path must be one, the sizes must be numbers, and
/// the key must be known.
pub open spec fn set_field(key: Seq<char>, value: Seq<char>, acc: NarFields) -> Result<
    NarFields,
    InvalidNarInfo,
> {
    if key == "StorePath"@ {
        match store_path_error(value) {
            Some(e) => Err(InvalidNarInfo::InvalidStorePath(e)),
            None => Ok(NarFields { store_path: Some(value), ..acc }),
        }
    } else if key == "URL"@ {
        Ok(NarFields { url: Some(value), ..acc })
    } else if key == "Compression"@ {
        Ok(NarFields { compression: Some(value), ..acc })
    } else if key == "FileHash"@ {
        Ok(NarFields { file_hash: Some(value), ..acc })
    } else if key == "FileSize"@ {
        match parse_u64(value) {
            Some(n) => Ok(NarFields { file_size: Some(n), ..acc }),
            None => Err(InvalidNarInfo::InvalidNumber(NumberField::FileSize)),
        }
    } else if key == "NarHash"@ {
        Ok(NarFields { nar_hash: Some(value), ..acc })
    } else if key == "NarSize"@ {
        match parse_u64(value) {
            Some(n) => Ok(NarFields { nar_size: Some(n), ..acc }),
            None => Err(InvalidNarInfo::InvalidNumber(NumberField::NarSize)),
        }
    } else if key == "References"@ {
        Ok(NarFields { references: Some(value), ..acc })
    } else if key == "Deriver"@ {
        Ok(NarFields { deriver: Some(value), ..acc })
    } else if key == "Sig"@ {
        Ok(NarFields { sig: Some(value), ..acc })
    } else if key == "CA"@ {
        Ok(NarFields { ca: Some(value), ..acc })
    } else {
        Err(InvalidNarInfo::UnknownField)
    }
}

/// The effect of one line on the fields read so far. An empty line changes
/// nothing; any other line must hold `": "`: what stands before the first one
/// is the key, what follows it is the value.
pub open spec fn apply_line(line: Seq<char>, acc: NarFields) -> Result<NarFields, InvalidNarInfo> {
    if line.len() == 0 {
        Ok(acc)
    } else {
        let sep = find_colon_space(line);
        if !(0 <= sep < line.len()) {
            Err(InvalidNarInfo::MissingColon)
        } else {
            set_field(line.subrange(0, sep), line.subrange(sep + 2, line.len() as int), acc)
        }
    }
}

/// The fields after all lines of `s`, read in order from `acc`; the error of
/// the first line that has one.
pub open spec fn parse_lines(s: Seq<char>, acc: NarFields) -> Result<NarFields, InvalidNarInfo>
    decreases s.len(),
    via parse_lines_decreases
{
    if s.len() == 0 {
        Ok(acc)
    } else {
        match apply_line(first_line(s), acc) {
            Err(e) => Err(e),
            Ok(next) => parse_lines(after_first_line(s), next),
        }
    }
}

#[via_fn]
proof fn parse_lines_decreases(s: Seq<char>, acc: NarFields) {
    lemma_index_of(s, '\n');
}

/// The artifact that the fields describe, or the first required field, in the
/// order store path, URL, nar hash, nar size, references, that is missing.
pub open spec fn finish_fields(f: NarFields) -> Result<NarView, InvalidNarInfo> {
    if f.store_path is None {
        Err(InvalidNarInfo::MissingField(RequiredField::StorePath))
    } else if f.url is None {
        Err(InvalidNarInfo::MissingField(RequiredField::Url))
    } else if f.nar_hash is None {
        Err(InvalidNarInfo::MissingField(RequiredField::NarHash))
    } else if f.nar_size is None {
        Err(InvalidNarInfo::MissingField(RequiredField::NarSize))
    } else if f.references is None {
        Err(InvalidNarInfo::MissingField(RequiredField::References))
    } else {
        Ok(
            NarView {
                store_path: f.store_path->0,
                meta: NarMetaView {
                    url: f.url->0,
                    compression: f.compression,
                    file_hash: f.file_hash,
                    file_size: f.file_size,
                    nar_hash: f.nar_hash->0,
                    nar_size: f.nar_size->0,
                    deriver: f.deriver,
                    sig: f.sig,
                    ca: f.ca,
                },
                references: f.references->0,
            },
        )
    }
}

/// What a narinfo text denotes.
pub open spec fn parse_nar_info_text(s: Seq<char>) -> Result<NarView, InvalidNarInfo> {
    match parse_lines(s, no_fields()) {
        Err(e) => Err(e),
        Ok(f) => finish_fields(f),
    }
}

/// One line of a narinfo: key, `": "`, value, line feed.
pub open spec fn field_line(key: Seq<char>, value: Seq<char>) -> Seq<char> {
    key + ": "@ + value + "\n"@
}

/// The line of an optional field: nothing when the field is absent.
pub open spec fn opt_field_line(key: Seq<char>, value: Option<Seq<char>>) -> Seq<char> {
    match value {
        Some(v) => field_line(key, v),
        None => Seq::empty(),
    }
}

/// The numeral of an optional number.
pub open spec fn opt_decimal(n: Option<u64>) -> Option<Seq<char>> {
    match n {
        Some(n) => Some(decimal(n as nat)),
        None => None,
    }
}

/// The narinfo text of an artifact: the fields that are present, in the order
/// store path, URL, compression, file hash, file size, nar hash, nar size,
/// references, signature, deriver, content address.
pub open spec fn render_nar_info(n: NarView) -> Seq<char> {
    field_line("StorePath"@, n.store_path) + (field_line("URL"@, n.meta.url) + (opt_field_line(
        "Compression"@,
        n.meta.compression,
    ) + (opt_field_line("FileHash"@, n.meta.file_hash) + (opt_field_line(
        "FileSize"@,
        opt_decimal(n.meta.file_size),
    ) + (field_line("NarHash"@, n.meta.nar_hash) + (field_line(
        "NarSize"@,
        decimal(n.meta.nar_size as nat),
    ) + (field_line("References"@, n.references) + (opt_field_line("Sig"@, n.meta.sig) + (
    opt_field_line("Deriver"@, n.meta.deriver) + opt_field_line("CA"@, n.meta.ca))))))))))
}

/// `v` can be read back from a narinfo line: it holds no line feed and does
/// not end in a carriage return.
pub open spec fn is_line_value(v: Seq<char>) -> bool {
    &&& forall|i: int| 0 <= i < v.len() ==> v[i] != '\n'
    &&& v.len() > 0 ==> v.last() != '\r'
}

/// An optional field that, where present, can be read back from its line.
pub open spec fn is_opt_line_value(v: Option<Seq<char>>) -> bool {
    v matches Some(x) ==> is_line_value(x)
}

/// An artifact that its narinfo text gives back: the store path is one, and
/// every other text field can be read back from its line.
pub open spec fn is_line_safe(n: NarView) -> bool {
    &&& is_store_path(n.store_path)
    &&& is_line_value(n.meta.url)
    &&& is_opt_line_value(n.meta.compression)
    &&& is_opt_line_value(n.meta.file_hash)
    &&& is_line_value(n.meta.nar_hash)
    &&& is_line_value(n.references)
    &&& is_opt_line_value(n.meta.sig)
    &&& is_opt_line_value(n.meta.deriver)
    &&& is_opt_line_value(n.meta.ca)
}

/// `k` is made of letters only, as every key of a narinfo is.
spec fn is_key(k: Seq<char>) -> bool {
    forall|i: int| 0 <= i < k.len() ==> k[i] != ':' && k[i] != '\n' && k[i] != '\r'
}

/// The keys are made of letters and differ from one another.
proof fn lemma_keys()
    ensures
        is_key("StorePath"@),
        is_key("URL"@),
        is_key("Compression"@),
        is_key("FileHash"@),
        is_key("FileSize"@),
        is_key("NarHash"@),
        is_key("NarSize"@),
        is_key("References"@),
        is_key("Deriver"@),
        is_key("Sig"@),
        is_key("CA"@),
        "StorePath"@.len() == 9,
        "URL"@.len() == 3,
        "Compression"@.len() == 11,
        "FileHash"@.len() == 8,
        "FileSize"@.len() == 8,
        "NarHash"@.len() == 7,
        "NarSize"@.len() == 7,
        "References"@.len() == 10,
        "Deriver"@.len() == 7,
        "Sig"@.len() == 3,
        "CA"@.len() == 2,
        "FileHash"@[4] == 'H',
        "FileSize"@[4] == 'S',
        "NarHash"@[0] == 'N',
        "NarHash"@[3] == 'H',
        "NarSize"@[0] == 'N',
        "NarSize"@[3] == 'S',
        "Deriver"@[0] == 'D',
        "URL"@[0] == 'U',
        "Sig"@[0] == 'S',
{
    reveal_strlit("StorePath");
    reveal_strlit("URL");
    reveal_strlit("Compression");
    reveal_strlit("FileHash");
    reveal_strlit("FileSize");
    reveal_strlit("NarHash");
    reveal_strlit("NarSize");
    reveal_strlit("References");
    reveal_strlit("Deriver");
    reveal_strlit("Sig");
    reveal_strlit("CA");
}

/// `v` holds no line feed.
pub open spec fn is_one_line(v: Seq<char>) -> bool {
    forall|i: int| 0 <= i < v.len() ==> v[i] != '\n'
}

/// An optional text that, where present, holds no line feed.
pub open spec fn is_opt_one_line(v: Option<Seq<char>>) -> bool {
    v matches Some(x) ==> is_one_line(x)
}

/// An optional text without one trailing carriage return.
pub open spec fn opt_strip_cr(v: Option<Seq<char>>) -> Option<Seq<char>> {
    match v {
        Some(x) => Some(strip_cr(x)),
        None => None,
    }
}

/// The artifact with each of its texts deprived of one trailing carriage
/// return: what is read back from the narinfo text of an artifact whose
/// texts hold no line feed.
pub open spec fn stripped(n: NarView) -> NarView {
    NarView {
        store_path: strip_cr(n.store_path),
        meta: NarMetaView {
            url: strip_cr(n.meta.url),
            compression: opt_strip_cr(n.meta.compression),
            file_hash: opt_strip_cr(n.meta.file_hash),
            file_size: n.meta.file_size,
            nar_hash: strip_cr(n.meta.nar_hash),
            nar_size: n.meta.nar_size,
            deriver: opt_strip_cr(n.meta.deriver),
            sig: opt_strip_cr(n.meta.sig),
            ca: opt_strip_cr(n.meta.ca),
        },
        references: strip_cr(n.references),
    }
}

/// Every text of the artifact holds no line feed.
pub open spec fn is_single_lined(n: NarView) -> bool {
    &&& is_one_line(n.store_path)
    &&& is_one_line(n.meta.url)
    &&& is_opt_one_line(n.meta.compression)
    &&& is_opt_one_line(n.meta.file_hash)
    &&& is_one_line(n.meta.nar_hash)
    &&& is_one_line(n.references)
    &&& is_opt_one_line(n.meta.sig)
    &&& is_opt_one_line(n.meta.deriver)
    &&& is_opt_one_line(n.meta.ca)
}

/// Every text among the fields holds no line feed, and the store path is one.
spec fn fields_single_lined(f: NarFields) -> bool {
    &&& f.store_path matches Some(p) ==> is_store_path(p)
    &&& is_opt_one_line(f.url)
    &&& is_opt_one_line(f.compression)
    &&& is_opt_one_line(f.file_hash)
    &&& is_opt_one_line(f.nar_hash)
    &&& is_opt_one_line(f.references)
    &&& is_opt_one_line(f.sig)
    &&& is_opt_one_line(f.deriver)
    &&& is_opt_one_line(f.ca)
}

/// Reading the line of a field whose value holds no line feed, followed by
/// `rest`, sets the field to the value without one trailing carriage
/// return, and goes on with `rest`.
proof fn lemma_parse_field(key: Seq<char>, v: Seq<char>, rest: Seq<char>, acc: NarFields)
    requires
        is_key(key),
        is_one_line(v),
    ensures
        parse_lines(field_line(key, v) + rest, acc) == match set_field(key, strip_cr(v), acc) {
            Err(e) => Err(e),
            Ok(next) => parse_lines(rest, next),
        },
{
    reveal_strlit(": ");
    reveal_strlit("\n");
    let line = key + ": "@ + v;
    let text = field_line(key, v) + rest;
    assert(text.len() == line.len() + 1 + rest.len());
    assert(text[line.len() as int] == '\n');
    assert forall|j: int| 0 <= j < line.len() implies text[j] != '\n' by {
        assert(text[j] == line[j]);
        if j < key.len() {
            assert(line[j] == key[j]);
        } else if j >= key.len() + 2 {
            assert(line[j] == v[j - key.len() - 2]);
        }
    }
    crate::text::lemma_index_of_is(text, '\n', line.len() as int);
    assert(text.subrange(0, line.len() as int) =~= line);
    let read = key + ": "@ + strip_cr(v);
    assert(strip_cr(line) =~= read) by {
        if v.len() > 0 {
            assert(line.last() == v.last());
        } else {
            assert(line.last() == ' ');
        }
    }
    assert(first_line(text) == read);
    assert(after_first_line(text) =~= rest);
    assert forall|j: int| 0 <= j < key.len() implies !crate::text::colon_space_at(read, j) by {
        assert(read[j] == key[j]);
    }
    assert(crate::text::colon_space_at(read, key.len() as int)) by {
        assert(read[key.len() as int] == ':');
        assert(read[key.len() as int + 1] == ' ');
    }
    crate::text::lemma_find_colon_space_is(read, key.len() as int);
    assert(read.subrange(0, key.len() as int) =~= key);
    assert(read.subrange(key.len() as int + 2, read.len() as int) =~= strip_cr(v));
}

/// Reading the line of an optional text field, followed by `rest`.
proof fn lemma_parse_opt_field(
    key: Seq<char>,
    v: Option<Seq<char>>,
    rest: Seq<char>,
    acc: NarFields,
)
    requires
        is_key(key),
        is_opt_one_line(v),
    ensures
        parse_lines(opt_field_line(key, v) + rest, acc) == match v {
            None => parse_lines(rest, acc),
            Some(x) => match set_field(key, strip_cr(x), acc) {
                Err(e) => Err(e),
                Ok(next) => parse_lines(rest, next),
            },
        },
{
    match v {
        None => {
            assert(opt_field_line(key, v) + rest =~= rest);
        },
        Some(x) => {
            lemma_parse_field(key, x, rest, acc);
        },
    }
}

/// A numeral can be read back from its line.
proof fn lemma_decimal_is_line_value(n: nat)
    ensures
        is_line_value(decimal(n)),
        strip_cr(decimal(n)) == decimal(n),
{
    crate::text::lemma_decimal(n);
    let d = decimal(n);
    assert forall|i: int| 0 <= i < d.len() implies d[i] != '\n' by {
        assert(crate::text::is_digit(d[i]));
    }
    assert(crate::text::is_digit(d.last()));
}

/// What is read back from the narinfo text of an artifact whose texts hold
/// no line feed: the artifact with each text deprived of one trailing
/// carriage return, where the store path is then one.
pub proof fn lemma_parse_rendered(n: NarView)
    requires
        is_single_lined(n),
    ensures
        parse_nar_info_text(render_nar_info(n)) == match store_path_error(
            strip_cr(n.store_path),
        ) {
            Some(e) => Err::<NarView, InvalidNarInfo>(InvalidNarInfo::InvalidStorePath(e)),
            None => Ok::<NarView, InvalidNarInfo>(stripped(n)),
        },
{
    lemma_keys();
    let m = n.meta;
    let want = stripped(n);
    let w = want.meta;
    let l11 = opt_field_line("CA"@, m.ca);
    let t10 = opt_field_line("Deriver"@, m.deriver) + l11;
    let t9 = opt_field_line("Sig"@, m.sig) + t10;
    let t8 = field_line("References"@, n.references) + t9;
    let t7 = field_line("NarSize"@, decimal(m.nar_size as nat)) + t8;
    let t6 = field_line("NarHash"@, m.nar_hash) + t7;
    let t5 = opt_field_line("FileSize"@, opt_decimal(m.file_size)) + t6;
    let t4 = opt_field_line("FileHash"@, m.file_hash) + t5;
    let t3 = opt_field_line("Compression"@, m.compression) + t4;
    let t2 = field_line("URL"@, m.url) + t3;
    let a0 = no_fields();
    let a1 = NarFields { store_path: Some(want.store_path), ..a0 };
    let a2 = NarFields { url: Some(w.url), ..a1 };
    let a3 = NarFields { compression: w.compression, ..a2 };
    let a4 = NarFields { file_hash: w.file_hash, ..a3 };
    let a5 = NarFields { file_size: w.file_size, ..a4 };
    let a6 = NarFields { nar_hash: Some(w.nar_hash), ..a5 };
    let a7 = NarFields { nar_size: Some(w.nar_size), ..a6 };
    let a8 = NarFields { references: Some(want.references), ..a7 };
    let a9 = NarFields { sig: w.sig, ..a8 };
    let a10 = NarFields { deriver: w.deriver, ..a9 };
    let a11 = NarFields { ca: w.ca, ..a10 };
    lemma_parse_field("StorePath"@, n.store_path, t2, a0);
    if store_path_error(strip_cr(n.store_path)) is None {
        assert(parse_lines(render_nar_info(n), a0) == parse_lines(t2, a1));
        lemma_parse_field("URL"@, m.url, t3, a1);
        assert(parse_lines(t2, a1) == parse_lines(t3, a2));
        lemma_parse_opt_field("Compression"@, m.compression, t4, a2);
        assert(parse_lines(t3, a2) == parse_lines(t4, a3));
        lemma_parse_opt_field("FileHash"@, m.file_hash, t5, a3);
        assert(parse_lines(t4, a3) == parse_lines(t5, a4));
        assert(parse_lines(t5, a4) == parse_lines(t6, a5)) by {
            match m.file_size {
                Some(size) => {
                    lemma_decimal_is_line_value(size as nat);
                    crate::text::lemma_parse_decimal(size);
                    lemma_parse_field("FileSize"@, decimal(size as nat), t6, a4);
                },
                None => {
                    assert(t5 =~= t6);
                },
            }
        }
        lemma_parse_field("NarHash"@, m.nar_hash, t7, a5);
        assert(parse_lines(t6, a5) == parse_lines(t7, a6));
        assert(parse_lines(t7, a6) == parse_lines(t8, a7)) by {
            lemma_decimal_is_line_value(m.nar_size as nat);
            crate::text::lemma_parse_decimal(m.nar_size);
            lemma_parse_field("NarSize"@, decimal(m.nar_size as nat), t8, a6);
        }
        lemma_parse_field("References"@, n.references, t9, a7);
        assert(parse_lines(t8, a7) == parse_lines(t9, a8));
        lemma_parse_opt_field("Sig"@, m.sig, t10, a8);
        assert(parse_lines(t9, a8) == parse_lines(t10, a9));
        lemma_parse_opt_field("Deriver"@, m.deriver, l11, a9);
        assert(parse_lines(t10, a9) == parse_lines(l11, a10));
        assert(parse_lines(l11, a10) == Ok::<NarFields, InvalidNarInfo>(a11)) by {
            let e = Seq::<char>::empty();
            lemma_parse_opt_field("CA"@, m.ca, e, a10);
            assert(l11 + e =~= l11);
            assert(parse_lines(e, a10) == Ok::<NarFields, InvalidNarInfo>(a10));
            assert(parse_lines(e, a11) == Ok::<NarFields, InvalidNarInfo>(a11));
        }
        assert(finish_fields(a11) == Ok::<NarView, InvalidNarInfo>(want));
    }
}

/// A line of a text holds no line feed.
proof fn lemma_first_line_one_line(s: Seq<char>)
    ensures
        is_one_line(first_line(s)),
{
    lemma_index_of(s, '\n');
    let i = index_of(s, '\n');
    let line = first_line(s);
    assert forall|k: int| 0 <= k < line.len() implies line[k] != '\n' by {
        if i < s.len() {
            let part = s.subrange(0, i);
            if part.len() > 0 && part.last() == '\r' {
                assert(line[k] == part[k]);
            }
            assert(part[k] == s[k]);
        }
    }
}

/// A field that is set to a text without line feed leaves the fields
/// without line feed.
proof fn lemma_set_field_single_lined(key: Seq<char>, value: Seq<char>, acc: NarFields)
    requires
        fields_single_lined(acc),
        is_one_line(value),
    ensures
        set_field(key, value, acc) matches Ok(next) ==> fields_single_lined(next),
{
}

/// Whatever is read from a text holds no line feed, and a store path that is
/// read is one.
proof fn lemma_parsed_single_lined(s: Seq<char>, acc: NarFields)
    requires
        fields_single_lined(acc),
    ensures
        parse_lines(s, acc) matches Ok(f) ==> fields_single_lined(f),
    decreases s.len(),
{
    if s.len() > 0 {
        lemma_index_of(s, '\n');
        let line = first_line(s);
        lemma_first_line_one_line(s);
        match apply_line(line, acc) {
            Err(_) => {},
            Ok(next) => {
                if line.len() > 0 {
                    crate::text::lemma_find_colon_space(line);
                    let sep = find_colon_space(line);
                    let value = line.subrange(sep + 2, line.len() as int);
                    assert(is_one_line(value)) by {
                        assert forall|k: int| 0 <= k < value.len() implies value[k] != '\n' by {
                            assert(value[k] == line[sep + 2 + k]);
                        }
                    }
                    lemma_set_field_single_lined(line.subrange(0, sep), value, acc);
                }
                lemma_parsed_single_lined(after_first_line(s), next);
            },
        }
    }
}

/// Parsing the narinfo text of an artifact gives the artifact back, provided
/// that the text fields can be read back from their lines.
pub proof fn lemma_nar_info_round_trip(n: NarView)
    requires
        is_line_safe(n),
    ensures
        parse_nar_info_text(render_nar_info(n)) == Ok::<NarView, InvalidNarInfo>(n),
{
    crate::database::model::lemma_store_path_parts(n.store_path);
    lemma_parse_rendered(n);
}

/// Parsing the narinfo text of an artifact gives the artifact back exactly
/// where the store path is one and no other text of the artifact holds a
/// line feed or ends in a carriage return.
pub proof fn lemma_nar_info_round_trip_iff(n: NarView)
    ensures
        parse_nar_info_text(render_nar_info(n)) == Ok::<NarView, InvalidNarInfo>(n)
            <==> is_line_safe(n),
{
    if is_line_safe(n) {
        lemma_nar_info_round_trip(n);
    }
    if parse_nar_info_text(render_nar_info(n)) == Ok::<NarView, InvalidNarInfo>(n) {
        lemma_parsed_single_lined(render_nar_info(n), no_fields());
        let f = parse_lines(render_nar_info(n), no_fields())->Ok_0;
        assert(finish_fields(f) == Ok::<NarView, InvalidNarInfo>(n));
        assert(is_store_path(n.store_path));
        crate::database::model::lemma_store_path_parts(n.store_path);
        assert(is_single_lined(n));
        assert(is_store_path(n.store_path));
        lemma_parse_rendered(n);
        assert(stripped(n) == n);
    }
}

/// The lines of a text, in order, each as `first_line` gives it.
pub open spec fn text_lines(s: Seq<char>) -> Seq<Seq<char>>
    decreases s.len(),
    via text_lines_decreases
{
    if s.len() == 0 {
        Seq::empty()
    } else {
        seq![first_line(s)] + text_lines(after_first_line(s))
    }
}

#[via_fn]
proof fn text_lines_decreases(s: Seq<char>) {
    lemma_index_of(s, '\n');
}

/// The fields after each of `lines` is applied, in order, from `acc`; the
/// error of the first line that has one.
pub open spec fn apply_lines(lines: Seq<Seq<char>>, acc: NarFields) -> Result<
    NarFields,
    InvalidNarInfo,
>
    decreases lines.len(),
{
    if lines.len() == 0 {
        Ok(acc)
    } else {
        match apply_line(lines[0], acc) {
            Err(e) => Err(e),
            Ok(next) => apply_lines(lines.drop_first(), next),
        }
    }
}

/// The key of a line: what stands before its first `": "`.
pub open spec fn line_key(line: Seq<char>) -> Seq<char> {
    line.subrange(0, find_colon_space(line))
}

/// The two lines do not give the same key: one of them is empty, or their
/// keys differ.
pub open spec fn keys_differ(a: Seq<char>, b: Seq<char>) -> bool {
    a.len() == 0 || b.len() == 0 || line_key(a) != line_key(b)
}

/// No key is given by two of the lines.
pub open spec fn each_key_once(lines: Seq<Seq<char>>) -> bool {
    forall|i: int, j: int| 0 <= i < j < lines.len() ==> keys_differ(lines[i], lines[j])
}

/// The two lists hold the same lines, empty lines apart, in whatever order.
pub open spec fn same_lines(a: Seq<Seq<char>>, b: Seq<Seq<char>>) -> bool {
    forall|l: Seq<char>| l.len() > 0 ==> (a.contains(l) <==> b.contains(l))
}

/// Reading a text is applying its lines in order.
pub proof fn lemma_parse_as_lines(s: Seq<char>, acc: NarFields)
    ensures
        parse_lines(s, acc) == apply_lines(text_lines(s), acc),
    decreases s.len(),
{
    if s.len() > 0 {
        lemma_index_of(s, '\n');
        let lines = text_lines(s);
        assert(lines[0] == first_line(s));
        assert(lines.drop_first() =~= text_lines(after_first_line(s)));
        match apply_line(first_line(s), acc) {
            Err(_) => {},
            Ok(next) => {
                lemma_parse_as_lines(after_first_line(s), next);
            },
        }
    }
}

/// Two lines that do not give the same key can be applied in either order.
proof fn lemma_swap_lines(a: Seq<char>, b: Seq<char>, acc: NarFields)
    requires
        keys_differ(a, b),
        apply_line(a, acc) is Ok,
        apply_line(b, apply_line(a, acc)->Ok_0) is Ok,
    ensures
        apply_line(b, acc) is Ok,
        apply_line(a, apply_line(b, acc)->Ok_0) == apply_line(b, apply_line(a, acc)->Ok_0),
{
}

/// A line whose key no line before it gives can be applied first.
proof fn lemma_line_to_front(lines: Seq<Seq<char>>, i: int, acc: NarFields)
    requires
        0 <= i < lines.len(),
        forall|k: int| 0 <= k < i ==> keys_differ(#[trigger] lines[k], lines[i]),
        apply_lines(lines, acc) is Ok,
    ensures
        apply_lines(seq![lines[i]] + lines.remove(i), acc) == apply_lines(lines, acc),
    decreases i,
{
    let x = lines[i];
    let moved = seq![x] + lines.remove(i);
    if i == 0 {
        assert(moved =~= lines);
    } else {
        let h = lines[0];
        let t = lines.drop_first();
        let a1 = apply_line(h, acc)->Ok_0;
        assert(apply_lines(lines, acc) == apply_lines(t, a1));
        assert(t[i - 1] == x);
        assert forall|k: int| 0 <= k < i - 1 implies keys_differ(#[trigger] t[k], t[i - 1]) by {
            assert(t[k] == lines[k + 1]);
        }
        lemma_line_to_front(t, i - 1, a1);
        let t_moved = seq![x] + t.remove(i - 1);
        assert(t_moved[0] == x);
        assert(t_moved.drop_first() =~= t.remove(i - 1));
        // `h`, then `x`, then the rest, gives what the lines give.
        assert(apply_lines(t_moved, a1) == apply_lines(lines, acc));
        let a2 = apply_line(x, a1)->Ok_0;
        assert(apply_lines(t_moved, a1) == apply_lines(t.remove(i - 1), a2));
        assert(keys_differ(lines[0], lines[i]));
        lemma_swap_lines(h, x, acc);
        let b1 = apply_line(x, acc)->Ok_0;
        assert(moved[0] == x);
        let after_x = moved.drop_first();
        assert(after_x =~= lines.remove(i));
        assert(after_x[0] == h);
        assert(after_x.drop_first() =~= t.remove(i - 1));
        assert(apply_lines(moved, acc) == apply_lines(after_x, b1));
        assert(apply_lines(after_x, b1) == apply_lines(t.remove(i - 1), a2));
    }
}

/// Lines that are all empty change nothing.
proof fn lemma_empty_lines(lines: Seq<Seq<char>>, acc: NarFields)
    requires
        forall|k: int| 0 <= k < lines.len() ==> (#[trigger] lines[k]).len() == 0,
    ensures
        apply_lines(lines, acc) == Ok::<NarFields, InvalidNarInfo>(acc),
    decreases lines.len(),
{
    if lines.len() > 0 {
        assert(lines[0].len() == 0);
        let t = lines.drop_first();
        assert forall|k: int| 0 <= k < t.len() implies (#[trigger] t[k]).len() == 0 by {
            assert(t[k] == lines[k + 1]);
        }
        lemma_empty_lines(t, acc);
    }
}

/// Taking out a line that is not empty, from lines that give each key
/// once, takes out that line alone.
proof fn lemma_remove_line(lines: Seq<Seq<char>>, i: int)
    requires
        0 <= i < lines.len(),
        lines[i].len() > 0,
        each_key_once(lines),
    ensures
        each_key_once(lines.remove(i)),
        forall|l: Seq<char>|
            l.len() > 0 ==> (#[trigger] lines.remove(i).contains(l) <==> lines.contains(l) && l
                != lines[i]),
{
    let less = lines.remove(i);
    assert forall|a: int, b: int| 0 <= a < b < less.len() implies keys_differ(less[a], less[b]) by {
        let a1 = if a < i {
            a
        } else {
            a + 1
        };
        let b1 = if b < i {
            b
        } else {
            b + 1
        };
        assert(less[a] == lines[a1]);
        assert(less[b] == lines[b1]);
        assert(keys_differ(lines[a1], lines[b1]));
    }
    assert forall|l: Seq<char>| l.len() > 0 implies (#[trigger] less.contains(l)
        <==> lines.contains(l) && l != lines[i]) by {
        if less.contains(l) {
            let a = choose|a: int| 0 <= a < less.len() && less[a] == l;
            let a1 = if a < i {
                a
            } else {
                a + 1
            };
            assert(less[a] == lines[a1]);
            assert(lines.contains(l));
            if a1 < i {
                assert(keys_differ(lines[a1], lines[i]));
            } else {
                assert(keys_differ(lines[i], lines[a1]));
            }
        }
        if lines.contains(l) && l != lines[i] {
            let b = choose|b: int| 0 <= b < lines.len() && lines[b] == l;
            let b1 = if b < i {
                b
            } else {
                b - 1
            };
            assert(less[b1] == l);
        }
    }
}

/// Lines that give each key once give the same fields in whatever order
/// they stand.
pub proof fn lemma_lines_in_any_order(a: Seq<Seq<char>>, b: Seq<Seq<char>>, acc: NarFields)
    requires
        each_key_once(a),
        each_key_once(b),
        same_lines(a, b),
        apply_lines(a, acc) is Ok,
    ensures
        apply_lines(b, acc) == apply_lines(a, acc),
    decreases b.len(),
{
    if b.len() == 0 {
        assert forall|k: int| 0 <= k < a.len() implies (#[trigger] a[k]).len() == 0 by {
            if a[k].len() > 0 {
                assert(a.contains(a[k]));
                assert(b.contains(a[k]));
            }
        }
        lemma_empty_lines(a, acc);
    } else {
        let x = b[0];
        let rest = b.drop_first();
        assert(rest =~= b.remove(0));
        if x.len() == 0 {
            assert forall|i: int, j: int| 0 <= i < j < rest.len() implies keys_differ(
                rest[i],
                rest[j],
            ) by {
                assert(keys_differ(b[i + 1], b[j + 1]));
            }
            assert forall|l: Seq<char>| l.len() > 0 implies (a.contains(l) <==> rest.contains(
                l,
            )) by {
                if rest.contains(l) {
                    let k = choose|k: int| 0 <= k < rest.len() && rest[k] == l;
                    assert(b[k + 1] == l);
                }
                if b.contains(l) {
                    let k = choose|k: int| 0 <= k < b.len() && b[k] == l;
                    assert(rest[k - 1] == l);
                }
            }
            lemma_lines_in_any_order(a, rest, acc);
        } else {
            assert(b.contains(x));
            assert(a.contains(x));
            let i = choose|i: int| 0 <= i < a.len() && a[i] == x;
            assert forall|k: int| 0 <= k < i implies keys_differ(#[trigger] a[k], a[i]) by {}
            lemma_line_to_front(a, i, acc);
            let moved = seq![x] + a.remove(i);
            assert(moved[0] == x);
            assert(moved.drop_first() =~= a.remove(i));
            let next = apply_line(x, acc)->Ok_0;
            assert(apply_lines(a, acc) == apply_lines(a.remove(i), next));
            lemma_remove_line(a, i);
            lemma_remove_line(b, 0);
            lemma_lines_in_any_order(a.remove(i), rest, next);
        }
    }
}

/// The order of the fields of a narinfo does not matter: two texts that
/// hold the same lines, empty lines apart, each key once, are read as the
/// same artifact.
pub proof fn lemma_fields_in_any_order(t1: Seq<char>, t2: Seq<char>)
    requires
        each_key_once(text_lines(t1)),
        each_key_once(text_lines(t2)),
        same_lines(text_lines(t1), text_lines(t2)),
        parse_nar_info_text(t1) is Ok,
    ensures
        parse_nar_info_text(t2) == parse_nar_info_text(t1),
{
    lemma_parse_as_lines(t1, no_fields());
    lemma_parse_as_lines(t2, no_fields());
    lemma_lines_in_any_order(text_lines(t1), text_lines(t2), no_fields());
}

/// Appends the line of a text field to `out`.
fn push_line(out: &mut String, key: &str, value: &str)
    ensures
        final(out)@ == old(out)@ + field_line(key@, value@),
{
    out.append(key);
    out.append(": ");
    out.append(value);
    out.append("\n");
    assert(out@ =~= old(out)@ + field_line(key@, value@));
}

/// Appends the line of an optional text field to `out`.
fn push_opt_line(out: &mut String, key: &str, value: &Option<String>)
    ensures
        final(out)@ == old(out)@ + opt_field_line(key@, opt_view(*value)),
{
    match value {
        Some(v) => push_line(out, key, v.as_str()),
        None => {
            assert(out@ =~= old(out)@ + Seq::<char>::empty());
        },
    }
}

/// Appends the line of a numeric field to `out`.
fn push_number_line(out: &mut String, key: &str, value: u64)
    ensures
        final(out)@ == old(out)@ + field_line(key@, decimal(value as nat)),
{
    out.append(key);
    out.append(": ");
    push_decimal(out, value);
    out.append("\n");
    assert(out@ =~= old(out)@ + field_line(key@, decimal(value as nat)));
}

/// Concatenation of sequences is associative.
proof fn lemma_concat_assoc(a: Seq<char>, b: Seq<char>, c: Seq<char>)
    ensures
        (a + b) + c == a + (b + c),
{
    assert((a + b) + c =~= a + (b + c));
}

impl Nar {
    /// The narinfo text of this artifact.
    pub fn format_nar_info(&self) -> (r: String)
        ensures
            r@ == render_nar_info(self@),
    {
        let ghost n = self@;
        let ghost l1 = field_line("StorePath"@, n.store_path);
        let ghost l2 = field_line("URL"@, n.meta.url);
        let ghost l3 = opt_field_line("Compression"@, n.meta.compression);
        let ghost l4 = opt_field_line("FileHash"@, n.meta.file_hash);
        let ghost l5 = opt_field_line("FileSize"@, opt_decimal(n.meta.file_size));
        let ghost l6 = field_line("NarHash"@, n.meta.nar_hash);
        let ghost l7 = field_line("NarSize"@, decimal(n.meta.nar_size as nat));
        let ghost l8 = field_line("References"@, n.references);
        let ghost l9 = opt_field_line("Sig"@, n.meta.sig);
        let ghost l10 = opt_field_line("Deriver"@, n.meta.deriver);
        let ghost l11 = opt_field_line("CA"@, n.meta.ca);
        let mut out = String::new();
        push_line(&mut out, "StorePath", self.store_path.path());
        assert(out@ =~= l1);
        push_line(&mut out, "URL", self.meta.url.as_str());
        let ghost upto_url = out@;
        push_opt_line(&mut out, "Compression", &self.meta.compression);
        let ghost upto_compression = out@;
        push_opt_line(&mut out, "FileHash", &self.meta.file_hash);
        let ghost upto_file_hash = out@;
        match self.meta.file_size {
            Some(size) => push_number_line(&mut out, "FileSize", size),
            None => {
                assert(out@ =~= out@ + Seq::<char>::empty());
            },
        }
        let ghost upto_file_size = out@;
        push_line(&mut out, "NarHash", self.meta.nar_hash.as_str());
        let ghost upto_nar_hash = out@;
        push_number_line(&mut out, "NarSize", self.meta.nar_size);
        let ghost upto_nar_size = out@;
        push_line(&mut out, "References", self.references.as_str());
        let ghost upto_references = out@;
        push_opt_line(&mut out, "Sig", &self.meta.sig);
        let ghost upto_sig = out@;
        push_opt_line(&mut out, "Deriver", &self.meta.deriver);
        let ghost upto_deriver = out@;
        push_opt_line(&mut out, "CA", &self.meta.ca);
        proof {
            let t10 = l10 + l11;
            let t9 = l9 + t10;
            let t8 = l8 + t9;
            let t7 = l7 + t8;
            let t6 = l6 + t7;
            let t5 = l5 + t6;
            let t4 = l4 + t5;
            let t3 = l3 + t4;
            let t2 = l2 + t3;
            lemma_concat_assoc(l1, l2, t3);
            lemma_concat_assoc(upto_url, l3, t4);
            lemma_concat_assoc(upto_compression, l4, t5);
            lemma_concat_assoc(upto_file_hash, l5, t6);
            lemma_concat_assoc(upto_file_size, l6, t7);
            lemma_concat_assoc(upto_nar_hash, l7, t8);
            lemma_concat_assoc(upto_nar_size, l8, t9);
            lemma_concat_assoc(upto_references, l9, t10);
            lemma_concat_assoc(upto_sig, l10, l11);
        }
        out
    }
}

/// The fields read so far, as owned values.
struct Fields {
    store_path: Option<StorePath>,
    url: Option<String>,
    compression: Option<String>,
    file_hash: Option<String>,
    file_size: Option<u64>,
    nar_hash: Option<String>,
    nar_size: Option<u64>,
    references: Option<String>,
    deriver: Option<String>,
    sig: Option<String>,
    ca: Option<String>,
}

impl View for Fields {
    type V = NarFields;

    closed spec fn view(&self) -> NarFields {
        NarFields {
            store_path: match self.store_path {
                Some(p) => Some(p@),
                None => None,
            },
            url: opt_view(self.url),
            compression: opt_view(self.compression),
            file_hash: opt_view(self.file_hash),
            file_size: self.file_size,
            nar_hash: opt_view(self.nar_hash),
            nar_size: self.nar_size,
            references: opt_view(self.references),
            deriver: opt_view(self.deriver),
            sig: opt_view(self.sig),
            ca: opt_view(self.ca),
        }
    }
}

/// Whether an exec result and a spec result agree.
spec fn same_fields(r: Result<Fields, InvalidNarInfo>, s: Result<NarFields, InvalidNarInfo>) -> bool {
    match r {
        Ok(f) => s == Ok::<NarFields, InvalidNarInfo>(f@),
        Err(e) => s == Err::<NarFields, InvalidNarInfo>(e),
    }
}

/// Applies the line `chars[from..to]` to `acc`.
fn read_line(chars: &Vec<char>, from: usize, to: usize, acc: Fields) -> (r: Result<
    Fields,
    InvalidNarInfo,
>)
    requires
        from <= to <= chars.len(),
    ensures
        same_fields(r, apply_line(chars@.subrange(from as int, to as int), acc@)),
{
    if from == to {
        return Ok(acc);
    }
    let ghost line = chars@.subrange(from as int, to as int);
    let sep = find_separator(chars, from, to);
    if sep >= to {
        return Err(InvalidNarInfo::MissingColon);
    }
    proof {
        crate::text::lemma_find_colon_space(line);
        assert(line.subrange(0, sep - from) =~= chars@.subrange(from as int, sep as int));
        assert(line.subrange(sep - from + 2, line.len() as int) =~= chars@.subrange(
            sep + 2,
            to as int,
        ));
    }
    let mut acc = acc;
    if range_is(chars, from, sep, "StorePath") {
        match StorePath::try_from(string_of(chars, sep + 2, to)) {
            Ok(p) => {
                acc.store_path = Some(p);
            },
            Err(e) => {
                return Err(InvalidNarInfo::InvalidStorePath(e));
            },
        }
    } else if range_is(chars, from, sep, "URL") {
        acc.url = Some(string_of(chars, sep + 2, to));
    } else if range_is(chars, from, sep, "Compression") {
        acc.compression = Some(string_of(chars, sep + 2, to));
    } else if range_is(chars, from, sep, "FileHash") {
        acc.file_hash = Some(string_of(chars, sep + 2, to));
    } else if range_is(chars, from, sep, "FileSize") {
        match parse_u64_in(chars, sep + 2, to) {
            Some(n) => {
                acc.file_size = Some(n);
            },
            None => {
                return Err(InvalidNarInfo::InvalidNumber(NumberField::FileSize));
            },
        }
    } else if range_is(chars, from, sep, "NarHash") {
        acc.nar_hash = Some(string_of(chars, sep + 2, to));
    } else if range_is(chars, from, sep, "NarSize") {
        match parse_u64_in(chars, sep + 2, to) {
            Some(n) => {
                acc.nar_size = Some(n);
            },
            None => {
                return Err(InvalidNarInfo::InvalidNumber(NumberField::NarSize));
            },
        }
    } else if range_is(chars, from, sep, "References") {
        acc.references = Some(string_of(chars, sep + 2, to));
    } else if range_is(chars, from, sep, "Deriver") {
        acc.deriver = Some(string_of(chars, sep + 2, to));
    } else if range_is(chars, from, sep, "Sig") {
        acc.sig = Some(string_of(chars, sep + 2, to));
    } else if range_is(chars, from, sep, "CA") {
        acc.ca = Some(string_of(chars, sep + 2, to));
    } else {
        return Err(InvalidNarInfo::UnknownField);
    }
    Ok(acc)
}

/// The artifact that the fields describe, if no required field is missing.
fn finish(f: Fields) -> (r: Result<Nar, InvalidNarInfo>)
    ensures
        match r {
            Ok(n) => finish_fields(f@) == Ok::<NarView, InvalidNarInfo>(n@),
            Err(e) => finish_fields(f@) == Err::<NarView, InvalidNarInfo>(e),
        },
{
    let store_path = match f.store_path {
        Some(p) => p,
        None => {
            return Err(InvalidNarInfo::MissingField(RequiredField::StorePath));
        },
    };
    let url = match f.url {
        Some(v) => v,
        None => {
            return Err(InvalidNarInfo::MissingField(RequiredField::Url));
        },
    };
    let nar_hash = match f.nar_hash {
        Some(v) => v,
        None => {
            return Err(InvalidNarInfo::MissingField(RequiredField::NarHash));
        },
    };
    let nar_size = match f.nar_size {
        Some(v) => v,
        None => {
            return Err(InvalidNarInfo::MissingField(RequiredField::NarSize));
        },
    };
    let references = match f.references {
        Some(v) => v,
        None => {
            return Err(InvalidNarInfo::MissingField(RequiredField::References));
        },
    };
    Ok(
        Nar {
            store_path,
            meta: NarMeta {
                url,
                compression: f.compression,
                file_hash: f.file_hash,
                file_size: f.file_size,
                nar_hash,
                nar_size,
                deriver: f.deriver,
                sig: f.sig,
                ca: f.ca,
            },
            references,
        },
    )
}

impl Nar {
    /// Reads a narinfo text. Lines may come in any order; a field given twice
    /// keeps its last value.
    pub fn parse_nar_info_inner(info: &str) -> (r: Result<Nar, InvalidNarInfo>)
        ensures
            match r {
                Ok(n) => parse_nar_info_text(info@) == Ok::<NarView, InvalidNarInfo>(n@),
                Err(e) => parse_nar_info_text(info@) == Err::<NarView, InvalidNarInfo>(e),
            },
    {
        let chars = chars_of(info);
        let n = chars.len();
        let mut acc = Fields {
            store_path: None,
            url: None,
            compression: None,
            file_hash: None,
            file_size: None,
            nar_hash: None,
            nar_size: None,
            references: None,
            deriver: None,
            sig: None,
            ca: None,
        };
        let mut pos: usize = 0;
        assert(chars@.subrange(0, n as int) =~= info@);
        while pos < n
            invariant
                pos <= n == chars.len(),
                chars@ == info@,
                parse_lines(chars@.subrange(pos as int, n as int), acc@) == parse_lines(
                    info@,
                    no_fields(),
                ),
            decreases n - pos,
        {
            let ghost rest = chars@.subrange(pos as int, n as int);
            let nl = find_char(&chars, pos, n, '\n');
            let end = if nl < n && nl > pos && chars[nl - 1] == '\r' {
                nl - 1
            } else {
                nl
            };
            let next = if nl < n {
                nl + 1
            } else {
                n
            };
            proof {
                lemma_index_of(rest, '\n');
                assert(first_line(rest) =~= chars@.subrange(pos as int, end as int));
                assert(after_first_line(rest) =~= chars@.subrange(next as int, n as int));
            }
            match read_line(&chars, pos, end, acc) {
                Ok(a) => {
                    acc = a;
                },
                Err(e) => {
                    return Err(e);
                },
            }
            pos = next;
        }
        finish(acc)
    }
}

/// The basenames that a references field lists: the pieces between single
/// spaces, without an empty piece after a final space.
pub open spec fn split_refs(s: Seq<char>) -> Seq<Seq<char>>
    decreases s.len(),
    via split_refs_decreases
{
    if s.len() == 0 {
        Seq::empty()
    } else {
        let i = index_of(s, ' ');
        if 0 <= i < s.len() {
            seq![s.subrange(0, i)] + split_refs(s.subrange(i + 1, s.len() as int))
        } else {
            seq![s]
        }
    }
}

#[via_fn]
proof fn split_refs_decreases(s: Seq<char>) {
    lemma_index_of(s, ' ');
}

/// The full path that a basename stands for.
pub open spec fn ref_path_text(basename: Seq<char>) -> Seq<char> {
    "/nix/store"@ + "/"@ + basename
}

impl Nar {
    /// Reads a narinfo text, as `parse_nar_info_inner` does.
    pub fn parse_nar_info(info: &str) -> (r: Result<Nar, ParseError>)
        ensures
            match r {
                Ok(n) => parse_nar_info_text(info@) == Ok::<NarView, InvalidNarInfo>(n@),
                Err(e) => e matches ParseError::InvalidNarInfo(cause) && parse_nar_info_text(info@)
                    == Err::<NarView, InvalidNarInfo>(cause),
            },
    {
        match Nar::parse_nar_info_inner(info) {
            Ok(n) => Ok(n),
            Err(e) => Err(ParseError::InvalidNarInfo(e)),
        }
    }

    /// The store path of each reference, in the order of the references
    /// field; for a basename that gives no store path, the reason.
    pub fn ref_paths(&self) -> (r: Vec<Result<StorePath, InvalidStorePath>>)
        ensures
            r@.len() == split_refs(self.references@).len(),
            forall|i: int|
                0 <= i < r@.len() ==> is_parsed_store_path(
                    #[trigger] r@[i],
                    ref_path_text(split_refs(self.references@)[i]),
                ),
    {
        let chars = chars_of(self.references.as_str());
        let n = chars.len();
        let mut out: Vec<Result<StorePath, InvalidStorePath>> = Vec::new();
        let ghost mut done: Seq<Seq<char>> = Seq::empty();
        let mut pos: usize = 0;
        assert(chars@.subrange(0, n as int) =~= self.references@);
        while pos < n
            invariant
                pos <= n == chars.len(),
                chars@ == self.references@,
                done + split_refs(chars@.subrange(pos as int, n as int)) == split_refs(
                    self.references@,
                ),
                out@.len() == done.len(),
                forall|i: int|
                    0 <= i < out@.len() ==> is_parsed_store_path(
                        #[trigger] out@[i],
                        ref_path_text(done[i]),
                    ),
            decreases n - pos,
        {
            let ghost rest = chars@.subrange(pos as int, n as int);
            let end = find_char(&chars, pos, n, ' ');
            let next = if end < n {
                end + 1
            } else {
                n
            };
            let ghost piece = chars@.subrange(pos as int, end as int);
            proof {
                lemma_index_of(rest, ' ');
                assert(rest.subrange(0, end - pos) =~= piece);
                if end < n {
                    assert(rest.subrange(end - pos + 1, rest.len() as int) =~= chars@.subrange(
                        next as int,
                        n as int,
                    ));
                } else {
                    assert(rest =~= piece);
                    assert(split_refs(chars@.subrange(next as int, n as int)) =~= Seq::<
                        Seq<char>,
                    >::empty());
                }
                assert(split_refs(rest) =~= seq![piece] + split_refs(
                    chars@.subrange(next as int, n as int),
                ));
                assert(done.push(piece) + split_refs(chars@.subrange(next as int, n as int))
                    =~= done + split_refs(rest));
            }
            let mut path = String::new();
            path.append("/nix/store");
            path.append("/");
            let base = string_of(&chars, pos, end);
            path.append(base.as_str());
            assert(path@ =~= ref_path_text(piece));
            out.push(StorePath::try_from(path));
            proof {
                done = done.push(piece);
            }
            pos = next;
        }
        proof {
            assert(done + Seq::<Seq<char>>::empty() =~= done);
        }
        out
    }

    /// The hash of each reference, in the order of the references field; for
    /// a basename that gives no store path, the reason.
    pub fn ref_hashes(&self) -> (r: Vec<Result<StorePathHash, InvalidStorePath>>)
        ensures
            r@.len() == split_refs(self.references@).len(),
            forall|i: int|
                0 <= i < r@.len() ==> is_ref_hash(
                    #[trigger] r@[i],
                    ref_path_text(split_refs(self.references@)[i]),
                ),
    {
        let paths = self.ref_paths();
        let mut out: Vec<Result<StorePathHash, InvalidStorePath>> = Vec::new();
        let mut i: usize = 0;
        while i < paths.len()
            invariant
                i <= paths.len(),
                out@.len() == i,
                paths@.len() == split_refs(self.references@).len(),
                forall|k: int|
                    0 <= k < paths@.len() ==> is_parsed_store_path(
                        #[trigger] paths@[k],
                        ref_path_text(split_refs(self.references@)[k]),
                    ),
                forall|k: int|
                    0 <= k < i ==> is_ref_hash(
                        #[trigger] out@[k],
                        ref_path_text(split_refs(self.references@)[k]),
                    ),
            decreases paths.len() - i,
        {
            let item = match &paths[i] {
                Ok(p) => Ok(p.hash()),
                Err(e) => Err(*e),
            };
            out.push(item);
            i += 1;
        }
        out
    }
}

/// Whether `r` is the hash of the store path `s`, or the reason for which `s`
/// is none.
pub open spec fn is_ref_hash(r: Result<StorePathHash, InvalidStorePath>, s: Seq<char>) -> bool {
    match r {
        Ok(h) => is_store_path(s) && h@ == s.subrange(
            crate::database::model::STORE_PREFIX_LEN as int,
            crate::database::model::SEP_POS as int,
        ),
        Err(e) => store_path_error(s) == Some(e),
    }
}

} // verus!
