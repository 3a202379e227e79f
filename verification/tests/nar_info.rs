use nix_cache_mirror::database::model::{InvalidStorePath, Nar, NarMeta, ParseError, StorePath};
use nix_cache_mirror::database::nar_info::{InvalidNarInfo, NumberField, RequiredField};
use std::convert::TryFrom;

fn hello() -> Nar {
    Nar {
        store_path: StorePath::try_from("/nix/store/yhzvzdq82lzk0kvrp3i79yhjnhps6qpk-hello-2.10")
            .unwrap(),
        meta: NarMeta {
            url: "some/url".to_owned(),
            compression: Some("xz".to_owned()),
            file_hash: Some("file:hash".to_owned()),
            file_size: Some(123),
            nar_hash: "nar:hash".to_owned(),
            nar_size: 456,
            deriver: Some("some.drv".to_owned()),
            sig: Some("s:i/g 2".to_owned()),
            ca: Some("fixed:hash".to_owned()),
        },
        references: "ref1 ref2".to_owned(),
    }
}

#[test]
fn test_nar_info_format() {
    let mut nar = hello();

    assert_eq!(
        nar.format_nar_info().to_string(),
        "StorePath: /nix/store/yhzvzdq82lzk0kvrp3i79yhjnhps6qpk-hello-2.10\n\
         URL: some/url\n\
         Compression: xz\n\
         FileHash: file:hash\n\
         FileSize: 123\n\
         NarHash: nar:hash\n\
         NarSize: 456\n\
         References: ref1 ref2\n\
         Sig: s:i/g 2\n\
         Deriver: some.drv\n\
         CA: fixed:hash\n"
    );

    nar.references = String::new();
    nar.meta.deriver = None;
    nar.meta.ca = None;
    assert_eq!(
        nar.format_nar_info().to_string(),
        "StorePath: /nix/store/yhzvzdq82lzk0kvrp3i79yhjnhps6qpk-hello-2.10\n\
         URL: some/url\n\
         Compression: xz\n\
         FileHash: file:hash\n\
         FileSize: 123\n\
         NarHash: nar:hash\n\
         NarSize: 456\n\
         References: \n\
         Sig: s:i/g 2\n"
    );
}

#[test]
fn test_nar_info_parse() {
    let raw = r###"
StorePath: /nix/store/yhzvzdq82lzk0kvrp3i79yhjnhps6qpk-hello-2.10
URL: some/url
Compression: xz
FileHash: file:hash
FileSize: 123
NarHash: nar:hash
NarSize: 456
References: ref1 ref2
Sig: s:i/g 2
Deriver: some.drv
CA: fixed:hash
"###;

    let nar = hello();

    assert_eq!(Nar::parse_nar_info(raw).unwrap(), nar);
}

#[test]
fn nar_info_round_trip() {
    let nar = hello();
    assert_eq!(Nar::parse_nar_info(&nar.format_nar_info()).unwrap(), nar);

    let mut bare = hello();
    bare.meta.compression = None;
    bare.meta.file_hash = None;
    bare.meta.file_size = None;
    bare.meta.deriver = None;
    bare.meta.sig = None;
    bare.meta.ca = None;
    bare.references = String::new();
    bare.meta.nar_size = u64::MAX;
    let text = bare.format_nar_info();
    assert!(text.contains("NarSize: 18446744073709551615\n"));
    assert_eq!(Nar::parse_nar_info(&text).unwrap(), bare);
}

#[test]
fn nar_info_fields_in_any_order() {
    let raw = "References: ref1 ref2\nNarSize: 456\nCA: fixed:hash\nNarHash: nar:hash\n\
               Deriver: some.drv\nURL: some/url\nSig: s:i/g 2\nFileSize: 123\n\
               FileHash: file:hash\nCompression: xz\n\
               StorePath: /nix/store/yhzvzdq82lzk0kvrp3i79yhjnhps6qpk-hello-2.10";
    assert_eq!(Nar::parse_nar_info(raw).unwrap(), hello());
}

#[test]
fn nar_info_line_endings_and_repeats() {
    let raw = "StorePath: /nix/store/yhzvzdq82lzk0kvrp3i79yhjnhps6qpk-hello-2.10\r\n\
               \r\n\
               URL: first\r\n\
               URL: some: url\r\n\
               NarHash: h\n\n\
               NarSize: +007\n\
               References: \n";
    let nar = Nar::parse_nar_info(raw).unwrap();
    assert_eq!(nar.meta.url, "some: url");
    assert_eq!(nar.meta.nar_hash, "h");
    assert_eq!(nar.meta.nar_size, 7);
    assert_eq!(nar.references, "");
    assert_eq!(nar.meta.compression, None);
    assert_eq!(nar.meta.file_size, None);
}

fn parse_err(raw: &str) -> InvalidNarInfo {
    Nar::parse_nar_info_inner(raw).unwrap_err()
}

const SP: &str = "StorePath: /nix/store/yhzvzdq82lzk0kvrp3i79yhjnhps6qpk-hello-2.10\n";

#[test]
fn nar_info_missing_fields() {
    let missing = |f| InvalidNarInfo::MissingField(f);
    assert_eq!(parse_err(""), missing(RequiredField::StorePath));
    assert_eq!(
        parse_err("URL: u\nNarHash: h\nNarSize: 1\nReferences: \n"),
        missing(RequiredField::StorePath)
    );
    assert_eq!(
        parse_err(&format!("{}NarHash: h\nNarSize: 1\nReferences: \n", SP)),
        missing(RequiredField::Url)
    );
    assert_eq!(
        parse_err(&format!("{}URL: u\nNarSize: 1\nReferences: \n", SP)),
        missing(RequiredField::NarHash)
    );
    assert_eq!(
        parse_err(&format!("{}URL: u\nNarHash: h\nReferences: \n", SP)),
        missing(RequiredField::NarSize)
    );
    assert_eq!(
        parse_err(&format!("{}URL: u\nNarHash: h\nNarSize: 1\n", SP)),
        missing(RequiredField::References)
    );
}

#[test]
fn nar_info_bad_lines() {
    assert_eq!(parse_err("StorePath\n"), InvalidNarInfo::MissingColon);
    assert_eq!(parse_err("URL:u\n"), InvalidNarInfo::MissingColon);
    assert_eq!(
        parse_err("URL: u\r"),
        InvalidNarInfo::MissingField(RequiredField::StorePath)
    );
    assert_eq!(parse_err("Frobnicate: 1\n"), InvalidNarInfo::UnknownField);
    assert_eq!(parse_err("url: u\n"), InvalidNarInfo::UnknownField);
    assert_eq!(
        parse_err("FileSize: 12a\n"),
        InvalidNarInfo::InvalidNumber(NumberField::FileSize)
    );
    assert_eq!(
        parse_err("FileSize: \n"),
        InvalidNarInfo::InvalidNumber(NumberField::FileSize)
    );
    assert_eq!(
        parse_err("NarSize: -1\n"),
        InvalidNarInfo::InvalidNumber(NumberField::NarSize)
    );
    assert_eq!(
        parse_err("NarSize: 18446744073709551616\n"),
        InvalidNarInfo::InvalidNumber(NumberField::NarSize)
    );
    assert_eq!(
        parse_err("StorePath: /nix/store/eeeeeeeeeeeeeeeeeeeeeeeeeeeeeeee-x\n"),
        InvalidNarInfo::InvalidStorePath(InvalidStorePath::InvalidHash)
    );
    assert_eq!(
        Nar::parse_nar_info("Frobnicate: 1\n").unwrap_err(),
        ParseError::InvalidNarInfo(InvalidNarInfo::UnknownField)
    );
}

#[test]
fn ref_paths_follow_the_references() {
    let mut nar = hello();
    nar.references = "xlxiw4rnxx2dksa91fizjzf7jb5nqghc-glibc-2.27 \
                      yhzvzdq82lzk0kvrp3i79yhjnhps6qpk-hello-2.10"
        .to_owned();
    let paths = nar.ref_paths();
    assert_eq!(paths.len(), 2);
    assert_eq!(
        paths[0].as_ref().unwrap().path(),
        "/nix/store/xlxiw4rnxx2dksa91fizjzf7jb5nqghc-glibc-2.27"
    );
    assert_eq!(paths[1].as_ref().unwrap(), &nar.store_path);
    let hashes = nar.ref_hashes();
    assert_eq!(hashes.len(), 2);
    assert_eq!(hashes[0].unwrap().as_str(), "xlxiw4rnxx2dksa91fizjzf7jb5nqghc");
    assert_eq!(hashes[1].unwrap(), nar.store_path.hash());

    nar.references = String::new();
    assert!(nar.ref_paths().is_empty());

    nar.references = "ref1 ref2".to_owned();
    let paths = nar.ref_paths();
    assert_eq!(paths.len(), 2);
    assert_eq!(paths[0], Err(InvalidStorePath::Length));

    nar.references = "yhzvzdq82lzk0kvrp3i79yhjnhps6qpk-hello-2.10 ".to_owned();
    assert_eq!(nar.ref_paths().len(), 1);
    nar.references = " yhzvzdq82lzk0kvrp3i79yhjnhps6qpk-hello-2.10".to_owned();
    let paths = nar.ref_paths();
    assert_eq!(paths.len(), 2);
    assert_eq!(paths[0], Err(InvalidStorePath::Length));
    assert!(paths[1].is_ok());
}
