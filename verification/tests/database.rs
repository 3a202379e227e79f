use nix_cache_mirror::database::model::{
    FetchTime, InvalidStorePath, Nar, NarMeta, NarStatus, ParseError, Root, RootStatus, StorePath,
    StorePathHash,
};
use nix_cache_mirror::database::nar_info::{InvalidNarInfo, NumberField, RequiredField};
use nix_cache_mirror::database::{Database, Error, APPLICATION_ID, USER_VERSION};
use std::convert::TryFrom;

fn path(letter: char, name: &str) -> StorePath {
    let hash: String = std::iter::repeat(letter).take(32).collect();
    StorePath::try_from(format!("/nix/store/{}-{}", hash, name)).unwrap()
}

fn hash(letter: char) -> StorePathHash {
    path(letter, "x").hash()
}

fn nar(letter: char, name: &str, references: &str) -> Nar {
    Nar {
        store_path: path(letter, name),
        meta: NarMeta {
            url: format!("nar/{}.nar.xz", name),
            compression: Some("xz".to_owned()),
            file_hash: None,
            file_size: Some(100),
            nar_hash: format!("sha256:{}", name),
            nar_size: 1000,
            deriver: None,
            sig: None,
            ca: None,
        },
        references: references.to_owned(),
    }
}

fn base(letter: char, name: &str) -> String {
    let hash: String = std::iter::repeat(letter).take(32).collect();
    format!("{}-{}", hash, name)
}

#[test]
fn test_init_sql() {
    let _ = Database::open_in_memory().unwrap();

    // A new database reads (0, 0) and is given the schema first.
    assert!(Database::needs_init(0, 0));
    // Initialize
    assert!(Database::check_version(APPLICATION_ID, USER_VERSION).is_ok());
    // Reopen
    assert!(!Database::needs_init(APPLICATION_ID, USER_VERSION));
    assert!(Database::check_version(APPLICATION_ID, USER_VERSION).is_ok());
}

#[test]
fn check_version_rejects_other_databases() {
    assert_eq!(APPLICATION_ID, 0x2237186b);
    assert_eq!(USER_VERSION, 1);
    assert!(!Database::needs_init(0, 1));
    assert!(!Database::needs_init(1, 0));
    match Database::check_version(0, 0) {
        Err(Error::InvalidDatabase(message)) => assert_eq!(
            message,
            "Invalid database, expect (app_id, user_ver): (574036075, 1), found (0, 0)"
        ),
        other => panic!("unexpected {:?}", other),
    }
    match Database::check_version(-5, i32::MIN) {
        Err(Error::InvalidDatabase(message)) => assert_eq!(
            message,
            "Invalid database, expect (app_id, user_ver): (574036075, 1), found (-5, -2147483648)"
        ),
        other => panic!("unexpected {:?}", other),
    }
    assert!(Database::check_version(APPLICATION_ID, 2).is_err());
}

#[test]
fn insert_twice_inserts_once() {
    let mut db = Database::open_in_memory().unwrap();
    let n = nar('a', "one", "");
    db.insert_or_ignore_nars(NarStatus::Pending, &vec![n.duplicate(), n.duplicate()])
        .unwrap();
    assert_eq!(db.nar_count(), 1);
    db.insert_or_ignore_nars(NarStatus::Available, &vec![n.duplicate()])
        .unwrap();
    assert_eq!(db.nar_count(), 1);
    // The row that was there is untouched: it is still pending.
    assert_eq!(db.select_all_nar(NarStatus::Pending).unwrap().len(), 1);
    assert!(db.select_all_nar(NarStatus::Available).unwrap().is_empty());
    assert_eq!(db.insert_or_ignore_nar(NarStatus::Pending, &n).unwrap(), 1);
    assert_eq!(db.nar_count(), 1);
}

#[test]
fn ids_follow_insertion() {
    let mut db = Database::open_in_memory().unwrap();
    assert_eq!(db.select_nar_id_by_hash(&hash('a')).unwrap(), None);
    assert_eq!(
        db.insert_or_ignore_nar(NarStatus::Pending, &nar('a', "one", "")).unwrap(),
        1
    );
    assert_eq!(
        db.insert_or_ignore_nar(NarStatus::Available, &nar('b', "two", "")).unwrap(),
        2
    );
    assert_eq!(
        db.insert_or_ignore_nar(NarStatus::Trashed, &nar('c', "three", "")).unwrap(),
        3
    );
    assert_eq!(db.select_nar_id_by_hash(&hash('a')).unwrap(), Some(1));
    assert_eq!(db.select_nar_id_by_hash(&hash('b')).unwrap(), Some(2));
    // A trashed row is not found.
    assert_eq!(db.select_nar_id_by_hash(&hash('c')).unwrap(), None);
    assert_eq!(db.select_nar_id_by_hash(&hash('d')).unwrap(), None);
    // But it still blocks a second row with its hash.
    assert_eq!(
        db.insert_or_ignore_nar(NarStatus::Pending, &nar('c', "three", "")).unwrap(),
        3
    );
    assert_eq!(db.nar_count(), 3);
}

#[test]
fn references_become_edges() {
    let mut db = Database::open_in_memory().unwrap();
    let d = nar('d', "dep", "");
    let missing = base('z', "missing");
    // Refers to itself, to a row that exists, and to one that does not.
    let a = nar(
        'a',
        "app",
        &format!("{} {} {}", base('a', "app"), base('d', "dep"), missing),
    );
    db.insert_or_ignore_nars(NarStatus::Pending, &vec![d.duplicate(), a.duplicate()])
        .unwrap();
    let rows = db.select_all_nar(NarStatus::Pending).unwrap();
    assert_eq!(rows.len(), 2);
    assert_eq!(rows[0].0, 1);
    assert_eq!(rows[0].1, d);
    assert_eq!(rows[1].0, 2);
    assert_eq!(rows[1].1.store_path, a.store_path);
    assert_eq!(rows[1].1.meta, a.meta);
    assert_eq!(
        rows[1].1.references,
        format!("{} {}", base('a', "app"), base('d', "dep"))
    );
}

#[test]
fn a_reference_to_a_later_row_is_dropped() {
    let mut db = Database::open_in_memory().unwrap();
    let a = nar('a', "app", &base('d', "dep"));
    let d = nar('d', "dep", "");
    db.insert_or_ignore_nars(NarStatus::Pending, &vec![a, d]).unwrap();
    let rows = db.select_all_nar(NarStatus::Pending).unwrap();
    assert_eq!(rows[0].1.references, "");
}

#[test]
fn store_paths_come_back_as_they_went_in() {
    let mut db = Database::open_in_memory().unwrap();
    let hello = Nar {
        store_path: StorePath::try_from(
            "/nix/store/yhzvzdq82lzk0kvrp3i79yhjnhps6qpk-hello-2.10",
        )
        .unwrap(),
        ..nar('a', "x", "")
    };
    db.insert_or_ignore_nar(NarStatus::Available, &hello).unwrap();
    let rows = db.select_all_nar(NarStatus::Available).unwrap();
    assert_eq!(rows[0].1, hello);
    let p = &rows[0].1.store_path;
    assert_eq!(format!("{}/{}-{}", p.root(), p.hash_str(), p.name()), p.path());
}

#[test]
fn the_references_of_a_row_that_is_skipped_are_not_looked_at() {
    let mut db = Database::open_in_memory().unwrap();
    let good = nar('a', "one", "");
    db.insert_or_ignore_nar(NarStatus::Pending, &good).unwrap();
    // The same hash again, with references that give no store path.
    let again = nar('a', "one", "ref1 ref2");
    assert_eq!(db.insert_or_ignore_nar(NarStatus::Available, &again).unwrap(), 1);
    db.insert_or_ignore_nars(NarStatus::Available, &vec![again.duplicate()])
        .unwrap();
    // Also where the row it is skipped for comes earlier in the same list.
    let b = nar('b', "two", "");
    let b_again = nar('b', "two", "not-a-path");
    db.insert_or_ignore_nars(NarStatus::Pending, &vec![b, b_again, again])
        .unwrap();
    assert_eq!(db.nar_count(), 2);
    let rows = db.select_all_nar(NarStatus::Pending).unwrap();
    assert_eq!(rows.len(), 2);
    assert_eq!(rows[0].1, good);
    // It is the first new row with a bad reference that is named.
    let c = nar('c', "three", &format!("{} x", base('c', "three")));
    let d = nar('d', "four", "/");
    match db.insert_or_ignore_nars(
        NarStatus::Pending,
        &vec![nar('a', "one", "?"), c, d],
    ) {
        Err(Error::ParseError(ParseError::InvalidStorePath(InvalidStorePath::Length))) => {}
        other => panic!("unexpected {:?}", other),
    }
    assert_eq!(db.nar_count(), 2);
}

#[test]
fn edges_can_be_read() {
    let mut db = Database::open_in_memory().unwrap();
    let d = nar('d', "dep", "");
    let a = nar(
        'a',
        "app",
        &format!(
            "{} {} {} {}",
            base('d', "dep"),
            base('a', "app"),
            base('z', "missing"),
            base('d', "dep")
        ),
    );
    db.insert_or_ignore_nars(NarStatus::Pending, &vec![d, a]).unwrap();
    assert_eq!(db.nar_refs(1), Some(vec![]));
    assert_eq!(db.nar_refs(2), Some(vec![1, 2, 1]));
    assert_eq!(db.nar_refs(0), None);
    assert_eq!(db.nar_refs(3), None);
    assert_eq!(db.nar_refs(-1), None);
    assert_eq!(db.nar_refs(i64::MAX), None);
    let root = Root::default();
    db.insert_root(&root, &vec![hash('a'), hash('q'), hash('d'), hash('a')])
        .unwrap();
    db.insert_root(&root, &vec![]).unwrap();
    assert_eq!(db.root_pins(1), Some(vec![2, 1, 2]));
    assert_eq!(db.root_pins(2), Some(vec![]));
    assert_eq!(db.root_pins(0), None);
    assert_eq!(db.root_pins(3), None);
}

#[test]
fn an_invalid_reference_changes_nothing() {
    let mut db = Database::open_in_memory().unwrap();
    let good = nar('a', "one", "");
    let bad = nar('b', "two", "ref1 ref2");
    match db.insert_or_ignore_nars(NarStatus::Pending, &vec![good.duplicate(), bad.duplicate()]) {
        Err(Error::ParseError(ParseError::InvalidStorePath(InvalidStorePath::Length))) => {}
        other => panic!("unexpected {:?}", other),
    }
    assert_eq!(db.nar_count(), 0);
    assert!(db.insert_or_ignore_nar(NarStatus::Pending, &bad).is_err());
    assert_eq!(db.nar_count(), 0);
    db.insert_or_ignore_nar(NarStatus::Pending, &good).unwrap();
    assert_eq!(db.nar_count(), 1);
}

#[test]
fn select_all_keeps_catalog_order_and_status() {
    let mut db = Database::open_in_memory().unwrap();
    db.insert_or_ignore_nar(NarStatus::Available, &nar('a', "one", "")).unwrap();
    db.insert_or_ignore_nar(NarStatus::Pending, &nar('b', "two", "")).unwrap();
    db.insert_or_ignore_nar(NarStatus::Available, &nar('c', "three", "")).unwrap();
    let ids: Vec<i64> = db
        .select_all_nar(NarStatus::Available)
        .unwrap()
        .iter()
        .map(|row| row.0)
        .collect();
    assert_eq!(ids, vec![1, 3]);
    assert!(db.select_all_nar(NarStatus::Trashed).unwrap().is_empty());
}

#[test]
fn roots_pin_what_the_catalog_holds() {
    let mut db = Database::open_in_memory().unwrap();
    db.insert_or_ignore_nar(NarStatus::Pending, &nar('a', "one", "")).unwrap();
    let root = Root {
        channel_url: Some("https://example.org/channel".to_owned()),
        cache_url: Some("https://cache.example.org".to_owned()),
        git_revision: Some("0123456789abcdef0123456789abcdef01234567".to_owned()),
        fetch_time: FetchTime::from_unix_seconds(1_574_000_000),
        status: RootStatus::Pending,
    };
    assert_eq!(db.insert_root(&root, &vec![hash('a'), hash('q')]).unwrap(), 1);
    assert_eq!(db.insert_root(&Root::default(), &vec![]).unwrap(), 2);
    assert_eq!(db.nar_count(), 1);
}

#[test]
fn statuses_have_letters() {
    assert_eq!(NarStatus::Pending.code(), "P");
    assert_eq!(NarStatus::Available.code(), "A");
    assert_eq!(NarStatus::Trashed.code(), "T");
    assert_eq!(NarStatus::from_code("P"), Some(NarStatus::Pending));
    assert_eq!(NarStatus::from_code("A"), Some(NarStatus::Available));
    assert_eq!(NarStatus::from_code("T"), Some(NarStatus::Trashed));
    assert_eq!(NarStatus::from_code("D"), None);
    assert_eq!(NarStatus::from_code(""), None);
    assert_eq!(RootStatus::Pending.code(), "P");
    assert_eq!(RootStatus::Downloading.code(), "D");
    assert_eq!(RootStatus::Available.code(), "A");
    assert_eq!(RootStatus::from_code("D"), Some(RootStatus::Downloading));
    assert_eq!(RootStatus::from_code("T"), None);
    assert_eq!(RootStatus::from_code("PP"), None);
    assert_eq!(NarStatus::default(), NarStatus::Pending);
    assert_eq!(RootStatus::default(), RootStatus::Pending);
}

#[test]
fn fetch_time_is_rfc3339_in_utc() {
    let epoch = FetchTime::from_unix_seconds(0).unwrap();
    assert_eq!(epoch.to_rfc3339(), "1970-01-01T00:00:00Z");
    assert_eq!(epoch.unix_seconds(), 0);
    let t = FetchTime::from_unix_seconds(1_574_000_000).unwrap();
    assert_eq!(t.to_rfc3339(), "2019-11-17T14:13:20Z");
    assert_eq!(t.duplicate(), t);
    assert_eq!(
        FetchTime::from_unix_seconds(-1).unwrap().to_rfc3339(),
        "1969-12-31T23:59:59Z"
    );
    assert!(FetchTime::from_unix_seconds(i64::MAX).is_none());
    assert!(FetchTime::from_unix_seconds(i64::MIN).is_none());
}

#[test]
fn errors_in_words() {
    assert_eq!(Error::NotFound.to_string(), "Row not found");
    assert_eq!(
        Error::InvalidDatabase("Too many rows".to_owned()).to_string(),
        "Invalid database: Too many rows"
    );
    assert_eq!(
        Error::ParseError(ParseError::InvalidNarInfo(InvalidNarInfo::MissingColon)).to_string(),
        "Parse error: Invalid narinfo: Missing colon"
    );
    assert_eq!(
        Error::ParseError(ParseError::InvalidStorePath(InvalidStorePath::InvalidHash)).to_string(),
        "Parse error: Invalid hash"
    );
    let words = |e: InvalidNarInfo| e.message();
    assert_eq!(words(InvalidNarInfo::UnknownField), "Unknown field");
    assert_eq!(
        words(InvalidNarInfo::InvalidStorePath(InvalidStorePath::Length)),
        "Invalid StorePath"
    );
    assert_eq!(
        words(InvalidNarInfo::InvalidNumber(NumberField::FileSize)),
        "Invalid FileSize"
    );
    assert_eq!(
        words(InvalidNarInfo::InvalidNumber(NumberField::NarSize)),
        "Invalid NarSize"
    );
    assert_eq!(
        words(InvalidNarInfo::MissingField(RequiredField::StorePath)),
        "Missing StorePath"
    );
    assert_eq!(words(InvalidNarInfo::MissingField(RequiredField::Url)), "Missing URL");
    assert_eq!(
        words(InvalidNarInfo::MissingField(RequiredField::NarHash)),
        "Missing NarHash"
    );
    assert_eq!(
        words(InvalidNarInfo::MissingField(RequiredField::NarSize)),
        "Missing NarSize"
    );
    assert_eq!(
        words(InvalidNarInfo::MissingField(RequiredField::References)),
        "Missing References"
    );
    assert_eq!(InvalidStorePath::Length.message(), "Length is not in range [45, 212]");
    assert_eq!(InvalidStorePath::NotAscii.message(), "Not ascii string");
    assert_eq!(
        InvalidStorePath::InvalidPrefix.message(),
        "Store directory `/nix/store/` not found"
    );
    assert_eq!(
        InvalidStorePath::MissingSeparator.message(),
        "Hash seperator `-` not found"
    );
    assert_eq!(InvalidStorePath::InvalidName.message(), "Invalid name");
    assert_eq!(hash('a').to_string(), "a".repeat(32));
}
