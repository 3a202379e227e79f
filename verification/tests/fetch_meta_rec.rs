use nix_cache_mirror::database::model::{
    FetchTime, InvalidStorePath, Nar, NarMeta, NarStatus, ParseError, Root, RootStatus, StorePath,
    StorePathHash,
};
use nix_cache_mirror::database::nar_info::InvalidNarInfo;
use nix_cache_mirror::database::Database;
use nix_cache_mirror::update::fetch_meta_rec::{Fetcher, NarState, MAX_CONCURRENT_FETCH};
use nix_cache_mirror::update::{
    add_nix_channel_rec, add_root_rec, fetch_meta_rec, Error, FetchCause, NixChannelInfo,
};
use std::collections::HashMap;
use std::convert::TryFrom;

const CACHE: &str = "https://cache.example.org";

fn base(letter: char) -> String {
    let hash: String = std::iter::repeat(letter).take(32).collect();
    format!("{}-pkg-{}", hash, letter)
}

fn path(letter: char) -> StorePath {
    StorePath::try_from(format!("/nix/store/{}", base(letter))).unwrap()
}

fn hash(letter: char) -> StorePathHash {
    path(letter).hash()
}

fn narinfo(letter: char, refs: &[char]) -> String {
    let references: Vec<String> = refs.iter().map(|r| base(*r)).collect();
    format!(
        "StorePath: /nix/store/{}\nURL: nar/{}.nar.xz\nCompression: xz\nNarHash: sha256:{}\n\
         NarSize: 10\nReferences: {}\n",
        base(letter),
        letter,
        letter,
        references.join(" ")
    )
}

/// An upstream cache: the narinfo text of each hash, by address.
fn upstream(graph: &[(char, &[char])]) -> HashMap<String, String> {
    graph
        .iter()
        .map(|(letter, refs)| {
            (
                format!("{}/{}.narinfo", CACHE, hash(*letter).as_str()),
                narinfo(*letter, refs),
            )
        })
        .collect()
}

/// Drives a crawl against an upstream until nothing is awaited.
fn crawl(
    db: &Database,
    roots: &[char],
    upstream: &HashMap<String, String>,
) -> Result<Fetcher, Error> {
    let root_paths: Vec<StorePath> = roots.iter().map(|r| path(*r)).collect();
    let mut fetcher = fetch_meta_rec(db, CACHE, &root_paths)?;
    let mut in_flight = fetcher.spawn_fetchers();
    while let Some((hash, url)) = in_flight.pop() {
        let outcome = upstream
            .get(&url)
            .cloned()
            .ok_or_else(|| format!("404 for {}", url));
        fetcher.on_fetched(db, hash, outcome)?;
        in_flight.extend(fetcher.spawn_fetchers());
    }
    fetcher.finish_fetch()?;
    Ok(fetcher)
}

fn id_of(db: &Database, letter: char) -> i64 {
    db.select_nar_id_by_hash(&hash(letter)).unwrap().unwrap()
}

const DIAMOND: &[(char, &[char])] = &[
    ('a', &['b', 'c']),
    ('b', &['d']),
    ('c', &['d']),
    ('d', &[]),
];

#[test]
fn diamond_is_committed_dependencies_first() {
    let up = upstream(DIAMOND);
    let mut db = Database::open_in_memory().unwrap();
    let fetcher = crawl(&db, &['a'], &up).unwrap();
    assert_eq!(fetcher.progress(), (4, 4));
    let ids = fetcher.save_all(&mut db).unwrap();
    assert_eq!(db.nar_count(), 4);
    assert_eq!(ids, vec![id_of(&db, 'a')]);
    assert!(id_of(&db, 'd') < id_of(&db, 'b'));
    assert!(id_of(&db, 'd') < id_of(&db, 'c'));
    assert!(id_of(&db, 'b') < id_of(&db, 'a'));
    assert!(id_of(&db, 'c') < id_of(&db, 'a'));

    // Every reference became an edge.
    let rows = db.select_all_nar(NarStatus::Pending).unwrap();
    assert_eq!(rows.len(), 4);
    for (_, nar) in &rows {
        let letter = nar.store_path.name().chars().last().unwrap();
        let refs = DIAMOND.iter().find(|(l, _)| *l == letter).unwrap().1;
        let expected: Vec<String> = refs.iter().map(|r| base(*r)).collect();
        assert_eq!(nar.references, expected.join(" "));
        assert_eq!(nar.meta.url, format!("nar/{}.nar.xz", letter));
    }

    // The same ingest again: nothing is fetched, nothing is added.
    let mut again = fetch_meta_rec(&db, CACHE, &vec![path('a')]).unwrap();
    assert!(again.spawn_fetchers().is_empty());
    assert_eq!(again.progress(), (0, 0));
    assert_eq!(again.finish_fetch().unwrap(), 0);
    assert_eq!(again.save_all(&mut db).unwrap(), ids);
    assert_eq!(db.nar_count(), 4);
}

#[test]
fn a_repeated_ingest_adds_no_row_even_where_it_fetches_again() {
    let up = upstream(DIAMOND);
    let mut db = Database::open_in_memory().unwrap();
    // The root is held, but trashed: it is not found, and so it is fetched.
    let trashed = Nar::parse_nar_info(&narinfo('a', &[])).unwrap();
    db.insert_or_ignore_nar(NarStatus::Trashed, &trashed).unwrap();
    let first = crawl(&db, &['a'], &up).unwrap();
    assert_eq!(first.progress(), (4, 4));
    assert_eq!(first.save_all(&mut db).unwrap(), vec![1]);
    assert_eq!(db.nar_count(), 4);
    let rows = db.select_all_nar(NarStatus::Pending).unwrap();
    let edges: Vec<Option<Vec<i64>>> = (1..=4).map(|id| db.nar_refs(id)).collect();

    let second = crawl(&db, &['a'], &up).unwrap();
    // Only the root is fetched again; what it refers to is found.
    assert_eq!(second.progress(), (1, 1));
    assert_eq!(second.save_all(&mut db).unwrap(), vec![1]);
    assert_eq!(db.nar_count(), 4);
    assert_eq!(db.select_all_nar(NarStatus::Pending).unwrap(), rows);
    assert_eq!(db.select_all_nar(NarStatus::Trashed).unwrap().len(), 1);
    let again: Vec<Option<Vec<i64>>> = (1..=4).map(|id| db.nar_refs(id)).collect();
    assert_eq!(again, edges);
}

#[test]
fn the_diamond_gives_four_rows_and_four_edges() {
    let up = upstream(DIAMOND);
    let mut db = Database::open_in_memory().unwrap();
    let ids = crawl(&db, &['a'], &up).unwrap().save_all(&mut db).unwrap();
    assert_eq!(ids.len(), 1);
    assert_eq!(db.nar_count(), 4);
    assert_eq!(db.select_all_nar(NarStatus::Pending).unwrap().len(), 4);
    let (a, b, c, d) = (id_of(&db, 'a'), id_of(&db, 'b'), id_of(&db, 'c'), id_of(&db, 'd'));
    assert_eq!(ids, vec![a]);
    assert_eq!(db.nar_refs(a), Some(vec![b, c]));
    assert_eq!(db.nar_refs(b), Some(vec![d]));
    assert_eq!(db.nar_refs(c), Some(vec![d]));
    assert_eq!(db.nar_refs(d), Some(vec![]));
    assert_eq!(d, 1);
    assert_eq!(a, 4);
}

#[test]
fn self_references_are_kept_but_do_not_block() {
    // hello -> [hello, glibc], glibc -> [glibc]
    let up = upstream(&[('h', &['g', 'h']), ('g', &['g']), ('s', &[])]);
    let mut db = Database::open_in_memory().unwrap();
    let fetcher = crawl(&db, &['h', 's'], &up).unwrap();
    let root = Root {
        channel_url: None,
        cache_url: Some(CACHE.to_owned()),
        git_revision: None,
        fetch_time: None,
        status: RootStatus::Pending,
    };
    let root_id = add_root_rec(fetcher, &mut db, &root).unwrap();
    assert_eq!(root_id, 1);
    assert_eq!(db.nar_count(), 3);
    assert!(id_of(&db, 'g') < id_of(&db, 'h'));
    let rows = db.select_all_nar(NarStatus::Pending).unwrap();
    let hello = rows.iter().find(|(id, _)| *id == id_of(&db, 'h')).unwrap();
    assert_eq!(hello.1.references, format!("{} {}", base('g'), base('h')));
    let glibc = rows.iter().find(|(id, _)| *id == id_of(&db, 'g')).unwrap();
    assert_eq!(glibc.1.references, base('g'));
}

#[test]
fn what_the_catalog_holds_is_not_fetched() {
    let up = upstream(DIAMOND);
    let mut db = Database::open_in_memory().unwrap();
    // Bring in d alone first.
    let ids = crawl(&db, &['d'], &up).unwrap().save_all(&mut db).unwrap();
    assert_eq!(ids, vec![1]);
    // Now a: d is known, only a, b and c are asked for.
    let wanted_once: HashMap<String, String> = up
        .iter()
        .filter(|(url, _)| !url.contains(hash('d').as_str()))
        .map(|(k, v)| (k.clone(), v.clone()))
        .collect();
    let fetcher = crawl(&db, &['a'], &wanted_once).unwrap();
    assert_eq!(fetcher.progress(), (3, 3));
    fetcher.save_all(&mut db).unwrap();
    assert_eq!(db.nar_count(), 4);
    assert_eq!(id_of(&db, 'd'), 1);
    assert_eq!(id_of(&db, 'a'), 4);
}

#[test]
fn a_failed_fetch_fails_the_crawl() {
    let mut up = upstream(DIAMOND);
    up.remove(&format!("{}/{}.narinfo", CACHE, hash('d').as_str()));
    let db = Database::open_in_memory().unwrap();
    match crawl(&db, &['a'], &up) {
        Err(Error::FetchFailed(failed, FetchCause::Transport(message))) => {
            assert_eq!(failed, hash('d'));
            assert!(message.starts_with("404 for "));
        }
        other => panic!("unexpected {:?}", other.map(|_| ())),
    }
    assert_eq!(db.nar_count(), 0);
}

#[test]
fn what_comes_must_be_what_was_asked_for() {
    let db = Database::open_in_memory().unwrap();
    let start = || fetch_meta_rec(&db, CACHE, &vec![path('a')]).unwrap();

    let mut f = start();
    let asked = f.spawn_fetchers();
    assert_eq!(asked.len(), 1);
    assert_eq!(asked[0].0, hash('a'));
    assert_eq!(
        asked[0].1,
        format!("{}/{}.narinfo", CACHE, "a".repeat(32))
    );
    assert!(matches!(
        f.on_fetched(&db, hash('a'), Ok(narinfo('b', &[]))),
        Err(Error::FetchFailed(_, FetchCause::UnexpectedStorePath))
    ));

    let mut f = start();
    assert!(matches!(
        f.on_fetched(&db, hash('b'), Ok(narinfo('b', &[]))),
        Err(Error::FetchFailed(_, FetchCause::NotAwaited))
    ));

    let mut f = start();
    assert!(matches!(
        f.on_fetched(&db, hash('a'), Ok("what".to_owned())),
        Err(Error::FetchFailed(
            _,
            FetchCause::Parse(ParseError::InvalidNarInfo(InvalidNarInfo::MissingColon))
        ))
    ));

    let mut f = start();
    let bad_refs = narinfo('a', &[]).replace("References: ", "References: ref1");
    assert!(matches!(
        f.on_fetched(&db, hash('a'), Ok(bad_refs)),
        Err(Error::FetchFailed(
            _,
            FetchCause::Parse(ParseError::InvalidStorePath(InvalidStorePath::Length))
        ))
    ));

    let mut f = start();
    f.on_fetched(&db, hash('a'), Ok(narinfo('a', &[]))).unwrap();
    // A second text for the same hash is not awaited.
    assert!(matches!(
        f.on_fetched(&db, hash('a'), Ok(narinfo('a', &[]))),
        Err(Error::FetchFailed(_, FetchCause::NotAwaited))
    ));
}

#[test]
fn nothing_is_committed_while_a_narinfo_is_awaited() {
    let mut db = Database::open_in_memory().unwrap();
    let mut f = fetch_meta_rec(&db, CACHE, &vec![path('a')]).unwrap();
    f.spawn_fetchers();
    f.on_fetched(&db, hash('a'), Ok(narinfo('a', &['b']))).unwrap();
    assert_eq!(f.progress(), (1, 2));
    assert!(matches!(f.finish_fetch(), Err(Error::IncompleteFetch)));
    assert!(matches!(f.save_all(&mut db), Err(Error::IncompleteFetch)));
    assert_eq!(db.nar_count(), 0);
}

#[test]
fn references_in_a_circle_are_refused() {
    let up = upstream(&[('a', &['b']), ('b', &['c']), ('c', &['b'])]);
    let mut db = Database::open_in_memory().unwrap();
    let fetcher = crawl(&db, &['a'], &up).unwrap();
    assert!(matches!(
        fetcher.save_all(&mut db),
        Err(Error::CyclicReferences)
    ));
    assert_eq!(db.nar_count(), 0);
}

#[test]
fn no_more_fetches_at_a_time_than_permits() {
    assert_eq!(MAX_CONCURRENT_FETCH, 128);
    // One root that refers to 200 store paths.
    let letters = "abcdfghijklmnpqrsvwxyz0123456789";
    let mut refs = vec![];
    for i in 0..200usize {
        let a = letters.as_bytes()[i % 32] as char;
        let b = letters.as_bytes()[i / 32] as char;
        refs.push(format!("{}{}{}-dep", a, b, "0".repeat(30)));
    }
    let root = format!("{}-root", "r".repeat(32));
    let text = format!(
        "StorePath: /nix/store/{}\nURL: u\nNarHash: h\nNarSize: 1\nReferences: {}\n",
        root,
        refs.join(" ")
    );
    let db = Database::open_in_memory().unwrap();
    let root_path = StorePath::try_from(format!("/nix/store/{}", root)).unwrap();
    let mut f = fetch_meta_rec(&db, CACHE, &vec![root_path.duplicate()]).unwrap();
    let first = f.spawn_fetchers();
    assert_eq!(first.len(), 1);
    assert!(f.spawn_fetchers().is_empty());
    f.on_fetched(&db, root_path.hash(), Ok(text)).unwrap();
    assert_eq!(f.progress(), (1, 201));
    let batch = f.spawn_fetchers();
    assert_eq!(batch.len(), 128);
    // What was met last is asked for first.
    assert_eq!(batch[0].0.as_str(), &refs[199][..32]);
    assert!(f.spawn_fetchers().is_empty());
    // One comes back: one more may go out.
    let (h, _) = &batch[0];
    let name = &refs[199];
    let reply = format!(
        "StorePath: /nix/store/{}\nURL: u\nNarHash: h\nNarSize: 1\nReferences: \n",
        name
    );
    f.on_fetched(&db, *h, Ok(reply)).unwrap();
    assert_eq!(f.spawn_fetchers().len(), 1);
    // A failure gives the permit back, too.
    assert!(f.on_fetched(&db, batch[1].0, Err("gone".to_owned())).is_err());
    assert_eq!(f.spawn_fetchers().len(), 1);
}

#[test]
fn a_channel_becomes_a_root_and_a_crawl() {
    let up = upstream(DIAMOND);
    let mut db = Database::open_in_memory().unwrap();
    let info = NixChannelInfo {
        channel_url: "https://example.org/channel".to_owned(),
        cache_url: CACHE.to_owned(),
        git_revision: "0123456789abcdef0123456789abcdef01234567".to_owned(),
        fetch_time: FetchTime::from_unix_seconds(0).unwrap(),
        root_paths: vec![path('b'), path('c')],
    };
    let (root, mut fetcher) = add_nix_channel_rec(&db, &info).unwrap();
    assert_eq!(root.cache_url.as_deref(), Some(CACHE));
    assert_eq!(fetcher.root_hashes(), vec![hash('b'), hash('c')]);
    let mut in_flight = fetcher.spawn_fetchers();
    while let Some((h, url)) = in_flight.pop() {
        fetcher.on_fetched(&db, h, Ok(up[&url].clone())).unwrap();
        in_flight.extend(fetcher.spawn_fetchers());
    }
    assert_eq!(add_root_rec(fetcher, &mut db, &root).unwrap(), 1);
    assert_eq!(db.nar_count(), 3);
}

#[test]
fn states_know_their_ids() {
    assert_eq!(NarState::Inserted(7).as_inserted(), Some(7));
    assert_eq!(NarState::Fetching.as_inserted(), None);
    let db = Database::open_in_memory().unwrap();
    let f = Fetcher::new(&db, CACHE.to_owned(), vec![hash('a'), hash('a'), hash('b')]).unwrap();
    assert_eq!(f.progress(), (0, 2));
}

fn nixos_nar(
    path: &str,
    file_hash: &str,
    file_size: u64,
    nar_hash: &str,
    nar_size: u64,
    deriver: &str,
    sig: &str,
    references: &str,
) -> Nar {
    Nar {
        store_path: StorePath::try_from(path).unwrap(),
        meta: NarMeta {
            url: format!("nar/{}.nar.xz", file_hash),
            compression: Some("xz".to_owned()),
            file_hash: Some(format!("sha256:{}", file_hash)),
            file_size: Some(file_size),
            nar_hash: format!("sha256:{}", nar_hash),
            nar_size,
            deriver: Some(deriver.to_owned()),
            sig: Some(format!("cache.nixos.org-1:{}", sig)),
            ca: None,
        },
        references: references.to_owned(),
    }
}

#[test]
fn test_fetch_meta_rec() {
    let cache_url = "https://cache.nixos.org";
    let expected = vec![
        nixos_nar(
            "/nix/store/fv8g2yczna9d78d150km0h73fkijw021-openssl-1.1.1d.tar.gz",
            "0zxydma1vh0gnncnkw3cxfpsl4y1rl5zsw0bprqyvb5zsklck6k5",
            8814400,
            "0i6abchw6pa0p313ahhz0myrr2sbk1npxkkprbbw1qmz6javbc6x",
            8845976,
            "0g93706i7g54hwilxkd9lhyfmmwy4jr6-openssl-1.1.1d.tar.gz.drv",
            "+t+LMZdteGZ6dasXA1yZqv61RpQBfp5C5gXSktiUun/A7REwDO1Zo/u388sTGF8Vg8GX2VdggWTG2WCi03ceCg==",
            "",
        ),
        nixos_nar(
            "/nix/store/xlxiw4rnxx2dksa91fizjzf7jb5nqghc-glibc-2.27",
            "0jh2rlji5ypmksarb1l48980dlizpw2i0a0cwa1wvmznclbf39r2",
            6350936,
            "1sb4jk4d8p7j5lird5nf9h0l3l0wdiy4g7scbp6x8jjgfy9bb6ap",
            28147008,
            "3v2v8gcgyrz0n1rkrm7qpr8x855fdc84-glibc-2.27.drv",
            "kpeoCBW1+6FDfUEGPZVgyNQ4/CvenOpLGa6MmJWAAKESZeti5VHFSSKjqQd2NeFyCIrBvO5D2SpGi2om/0brCg==",
            "xlxiw4rnxx2dksa91fizjzf7jb5nqghc-glibc-2.27",
        ),
        nixos_nar(
            "/nix/store/yhzvzdq82lzk0kvrp3i79yhjnhps6qpk-hello-2.10",
            "1xbx6mir1krb81rb6g2paz2mxgpjkxqc0v9i2pyl90zmjdxjv0ld",
            41204,
            "0v1pkm7xg0gp5avnd0qbnmmhcw97rwwwyfxf467imwcvvpyl54hz",
            205920,
            "dsjl0sbwpcrxfg85bq75y1j1hbwrxjy9-hello-2.10.drv",
            "ek9X+mtn4eOMwIfDIq4gyzO/pFOjOvTracg5+SPMAMcSRrNravyRPVyaOgmjy3vTXKC6AavAxfILAg7mpVnDDg==",
            "xlxiw4rnxx2dksa91fizjzf7jb5nqghc-glibc-2.27 yhzvzdq82lzk0kvrp3i79yhjnhps6qpk-hello-2.10",
        ),
    ];
    // What the cache answers.
    let upstream: HashMap<String, String> = expected
        .iter()
        .map(|nar| {
            (
                format!("{}/{}.narinfo", cache_url, nar.store_path.hash_str()),
                nar.format_nar_info(),
            )
        })
        .collect();

    let root_paths = vec![
        // hello -> [hello, glibc]
        StorePath::try_from("/nix/store/yhzvzdq82lzk0kvrp3i79yhjnhps6qpk-hello-2.10").unwrap(),
        // openssl.src -> []
        StorePath::try_from("/nix/store/fv8g2yczna9d78d150km0h73fkijw021-openssl-1.1.1d.tar.gz")
            .unwrap(),
    ];

    let mut db = Database::open_in_memory().unwrap();
    let mut fetcher = fetch_meta_rec(&db, cache_url, &root_paths).unwrap();
    let mut in_flight = fetcher.spawn_fetchers();
    while let Some((hash, url)) = in_flight.pop() {
        fetcher
            .on_fetched(&db, hash, Ok(upstream[&url].clone()))
            .unwrap();
        in_flight.extend(fetcher.spawn_fetchers());
    }
    let mut ids = fetcher.save_all(&mut db).unwrap();
    ids.sort();
    // Only top-level.
    assert_eq!(ids, vec![2, 3]);

    let mut nars: Vec<Nar> = db
        .select_all_nar(NarStatus::Pending)
        .unwrap()
        .into_iter()
        .map(|(_, nar)| nar)
        .collect();
    nars.sort_by(|a, b| a.store_path.path().cmp(&b.store_path.path()));
    assert_eq!(nars, expected);
}
