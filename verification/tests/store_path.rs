use nix_cache_mirror::database::model::{InvalidStorePath, StorePath};
use std::convert::TryFrom;

fn p(s: &str) -> Result<StorePath, InvalidStorePath> {
    StorePath::try_from(s)
}

#[test]
fn test_parse_nix_path() {
    assert!(p("").is_err());
    assert!(p("/nix/storeüíóÔ∏è").is_err());
    assert!(p("/nix/store/").is_err());
    assert!(p("/nix/store/00000000000000000000000000000000").is_err());
    assert!(p("/nix/store/0000000000000000000000000000000üíóÔ∏è").is_err());
    assert!(p("/nix/store/00000000000000000000000000000000-").is_err());
    assert!(p("/nix/store/00000000000000000000000000000000-üíóÔ∏è").is_err());

    let s = "/nix/store/5yr2767rqnvwvsfy445ny41lk67fcjjh-VSCode_1.40.1_linux-x64.tar.gz";
    let store_path = p(s).unwrap();
    assert_eq!(store_path.path(), s);
    assert_eq!(
        std::borrow::Borrow::<[u8]>::borrow(&store_path.hash()),
        b"5yr2767rqnvwvsfy445ny41lk67fcjjh"
    );
    assert_eq!(store_path.hash_str(), "5yr2767rqnvwvsfy445ny41lk67fcjjh");
    assert_eq!(store_path.name(), "VSCode_1.40.1_linux-x64.tar.gz");
    assert_eq!(store_path.to_string(), s);
}

#[test]
fn store_path_rejections_name_their_reason() {
    let e = |s: &str| p(s).unwrap_err();
    assert_eq!(e(""), InvalidStorePath::Length);
    assert_eq!(e("/nix/store/00000000000000000000000000000000-"), InvalidStorePath::Length);
    let long = format!("/nix/store/00000000000000000000000000000000-{}", "x".repeat(169));
    assert_eq!(long.len(), 213);
    assert_eq!(e(&long), InvalidStorePath::Length);
    assert!(p(&long[..212]).is_ok());
    assert!(p("/nix/store/00000000000000000000000000000000-x").is_ok());
    assert_eq!(
        e("/nix/store/00000000000000000000000000000000-é"),
        InvalidStorePath::NotAscii
    );
    assert_eq!(
        e("/abc/store/00000000000000000000000000000000-x"),
        InvalidStorePath::InvalidPrefix
    );
    assert_eq!(
        e("/nix/store-00000000000000000000000000000000-x"),
        InvalidStorePath::InvalidPrefix
    );
    assert_eq!(
        e("\n\n\n\n\n\n\n\n\n\n\n00000000000000000000000000000000-x"),
        InvalidStorePath::InvalidPrefix
    );
    assert_eq!(
        e("nix/store//00000000000000000000000000000000-x"),
        InvalidStorePath::InvalidPrefix
    );
    // The store directory is looked at before the separator, the hash and
    // the name, and after the length and the characters.
    assert_eq!(
        e("/NIX/store/eeeeeeeeeeeeeeeeeeeeeeeeeeeeeeee_ "),
        InvalidStorePath::InvalidPrefix
    );
    assert_eq!(e("/abc/store/0-x"), InvalidStorePath::Length);
    assert_eq!(
        e("/\u{e9}bc/store00000000000000000000000000000000-x"),
        InvalidStorePath::NotAscii
    );
    assert_eq!(
        e("/nix/store/00000000000000000000000000000000_xy"),
        InvalidStorePath::MissingSeparator
    );
    assert_eq!(
        e("/nix/store/0000000000000000000000000000000-0x"),
        InvalidStorePath::MissingSeparator
    );
    for bad in ["e", "o", "u", "t", "A", "-"] {
        let s = format!("/nix/store/{}0000000000000000000000000000000-x", bad);
        assert_eq!(e(&s), InvalidStorePath::InvalidHash);
    }
    assert_eq!(
        e("/nix/store/eeeeeeeeeeeeeeeeeeeeeeeeeeeeeeee-x"),
        InvalidStorePath::InvalidHash
    );
    assert_eq!(
        e("/nix/store/00000000000000000000000000000000-a b"),
        InvalidStorePath::InvalidName
    );
    assert_eq!(
        e("/nix/store/00000000000000000000000000000000-a/b"),
        InvalidStorePath::InvalidName
    );
    assert!(p("/nix/store/00000000000000000000000000000000-aZ09+-._?=").is_ok());
}

#[test]
fn store_path_round_trip() {
    let s = "/nix/store/5yr2767rqnvwvsfy445ny41lk67fcjjh-VSCode_1.40.1_linux-x64.tar.gz";
    let a = p(s).unwrap();
    let b = StorePath::try_from(a.to_string()).unwrap();
    assert_eq!(a, b);
    assert_eq!(a.root(), "/nix/store");
    assert_eq!(format!("{}/{}-{}", a.root(), a.hash_str(), a.name()), s);
    assert_eq!(a.hash().as_str(), a.hash_str());
    assert!(a.hash().same(&b.hash()));
    let c = p("/nix/store/yhzvzdq82lzk0kvrp3i79yhjnhps6qpk-hello-2.10").unwrap();
    assert!(!a.hash().same(&c.hash()));
}
