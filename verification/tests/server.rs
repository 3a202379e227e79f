use nix_cache_mirror::database::model::{Nar, NarMeta, NarStatus, StorePath};
use nix_cache_mirror::database::Database;
use nix_cache_mirror::server::nar_info_cache::NarInfoCache;
use nix_cache_mirror::server::{
    parse_content_range, serve, serve_nar_file, serve_nar_info, Body, Method, Response,
    SendAction, SendEvent, SendFile, SendStage, ServerData, SEND_FILE_BUFFER_LEN,
};
use std::convert::TryFrom;

const HELLO: &str = "yhzvzdq82lzk0kvrp3i79yhjnhps6qpk";
const GLIBC: &str = "xlxiw4rnxx2dksa91fizjzf7jb5nqghc";
const OPENSSL: &str = "fv8g2yczna9d78d150km0h73fkijw021";

fn nar(hash: &str, name: &str, file_size: Option<u64>, nar_size: u64, references: &str) -> Nar {
    Nar {
        store_path: StorePath::try_from(format!("/nix/store/{}-{}", hash, name)).unwrap(),
        meta: NarMeta {
            url: format!("nar/upstream-{}.nar.xz", name),
            compression: Some("xz".to_owned()),
            file_hash: None,
            file_size,
            nar_hash: "sha256:0".to_owned(),
            nar_size,
            deriver: None,
            sig: None,
            ca: None,
        },
        references: references.to_owned(),
    }
}

fn catalog() -> Database {
    let mut db = Database::open_in_memory().unwrap();
    db.insert_or_ignore_nar(
        NarStatus::Available,
        &nar(GLIBC, "glibc-2.27", Some(1000), 5000, &format!("{}-glibc-2.27", GLIBC)),
    )
    .unwrap();
    db.insert_or_ignore_nar(
        NarStatus::Pending,
        &nar(OPENSSL, "openssl-1.1.1d.tar.gz", Some(10), 20, ""),
    )
    .unwrap();
    db.insert_or_ignore_nar(
        NarStatus::Available,
        &nar(
            HELLO,
            "hello-2.10",
            None,
            777,
            &format!("{}-glibc-2.27 {}-hello-2.10", GLIBC, HELLO),
        ),
    )
    .unwrap();
    db
}

fn data() -> ServerData {
    ServerData::init(&catalog(), "./data/nar".to_owned(), true, Some(40)).unwrap()
}

fn text(status: u16, body: &str) -> Response {
    Response {
        status,
        headers: vec![],
        body: Body::Text(body.to_owned()),
    }
}

fn header(name: &str, value: &str) -> (String, String) {
    (name.to_owned(), value.to_owned())
}

#[test]
fn range_windows() {
    assert_eq!(parse_content_range("bytes=100-199", 1000), Some((99, 199)));
    assert_eq!(parse_content_range("bytes=500-", 1000), Some((499, 1000)));
    assert_eq!(parse_content_range("bytes=2000-3000", 1000), None);
}

#[test]
fn range_edges() {
    let p = |h: &str| parse_content_range(h, 1000);
    assert_eq!(p("bytes=1-"), Some((0, 1000)));
    assert_eq!(p("bytes=1000-"), Some((999, 1000)));
    assert_eq!(p("bytes=1001-"), None);
    assert_eq!(p("bytes=0-"), None);
    assert_eq!(p("bytes=0-10"), None);
    assert_eq!(p("bytes=1-999"), Some((0, 999)));
    assert_eq!(p("bytes=1-1000"), None);
    assert_eq!(p("bytes=7-7"), Some((6, 7)));
    assert_eq!(p("bytes=8-7"), None);
    assert_eq!(p("bytes=-5"), None);
    assert_eq!(p("bytes=5"), None);
    assert_eq!(p("bytes="), None);
    assert_eq!(p("bytes"), None);
    assert_eq!(p(""), None);
    assert_eq!(p("items=1-2"), None);
    assert_eq!(p("Bytes=1-2"), None);
    assert_eq!(p(" bytes=1-2"), None);
    assert_eq!(p("bytes=a-2"), None);
    assert_eq!(p("bytes=1-b"), None);
    assert_eq!(p("bytes=1-2,4-5"), None);
    assert_eq!(p("bytes=1--2"), None);
    assert_eq!(p("bytes=+3-+4"), Some((2, 4)));
    assert_eq!(p("bytes=18446744073709551616-"), None);
    assert_eq!(
        parse_content_range("bytes=18446744073709551615-", u64::MAX),
        Some((u64::MAX - 1, u64::MAX))
    );
    assert_eq!(parse_content_range("bytes=1-", 0), None);
}

#[test]
fn index_serves_the_available_rows_only() {
    let cache = NarInfoCache::init(&catalog()).unwrap();
    assert_eq!(
        cache.get_info(GLIBC),
        Some(
            "StorePath: /nix/store/xlxiw4rnxx2dksa91fizjzf7jb5nqghc-glibc-2.27\n\
             URL: nar/xlxiw4rnxx2dksa91fizjzf7jb5nqghc\n\
             Compression: xz\n\
             FileSize: 1000\n\
             NarHash: sha256:0\n\
             NarSize: 5000\n\
             References: xlxiw4rnxx2dksa91fizjzf7jb5nqghc-glibc-2.27\n"
        )
    );
    assert_eq!(cache.get_file_size(GLIBC), Some(1000));
    assert_eq!(
        cache.get_info(HELLO),
        Some(
            "StorePath: /nix/store/yhzvzdq82lzk0kvrp3i79yhjnhps6qpk-hello-2.10\n\
             URL: nar/yhzvzdq82lzk0kvrp3i79yhjnhps6qpk\n\
             Compression: xz\n\
             NarHash: sha256:0\n\
             NarSize: 777\n\
             References: xlxiw4rnxx2dksa91fizjzf7jb5nqghc-glibc-2.27 \
             yhzvzdq82lzk0kvrp3i79yhjnhps6qpk-hello-2.10\n"
        )
    );
    // Without a file size the nar size is served.
    assert_eq!(cache.get_file_size(HELLO), Some(777));
    // A pending row is not served.
    assert_eq!(cache.get_info(OPENSSL), None);
    assert_eq!(cache.get_file_size(OPENSSL), None);
    // Neither is anything that is no hash of the catalog.
    assert_eq!(cache.get_info("00000000000000000000000000000000"), None);
    assert_eq!(cache.get_info(&GLIBC[..31]), None);
    assert_eq!(cache.get_info(&format!("{}x", GLIBC)), None);
    assert_eq!(cache.get_info(""), None);
    assert_eq!(cache.get_file_size("ééééééééééééééé!!"), None);

    let empty = NarInfoCache::init(&Database::open_in_memory().unwrap()).unwrap();
    assert_eq!(empty.get_info(GLIBC), None);
}

#[test]
fn routes() {
    let d = data();
    assert_eq!(d.nar_file_dir(), "./data/nar");
    assert_eq!(serve(&d, Method::Get, "/", None), text(200, "It works"));
    assert_eq!(serve(&d, Method::Head, "/", None), text(404, "Not found"));
    assert_eq!(
        serve(&d, Method::Get, "/nix-cache-info", None),
        text(200, "StoreDir: /nix/store\nWantMassQuery: 1\nPriority: 40\n")
    );
    assert_eq!(serve(&d, Method::Other, "/nix-cache-info", None), text(405, ""));
    assert_eq!(serve(&d, Method::Head, "/nix-cache-info", None), text(405, ""));
    assert_eq!(serve(&d, Method::Other, "/nar/whatever", None), text(405, ""));
    assert_eq!(serve(&d, Method::Get, "/nar/whatever", None), text(404, "Not found"));
    assert_eq!(serve(&d, Method::Get, "/nar/", None), text(404, "Not found"));
    assert_eq!(serve(&d, Method::Other, "/x.narinfo", None), text(405, ""));
    assert_eq!(serve(&d, Method::Head, "/x.narinfo", None), text(405, ""));
    assert_eq!(serve(&d, Method::Get, "/x.narinfo", None), text(404, "Not found"));
    assert_eq!(serve(&d, Method::Get, "/.narinfo", None), text(404, "Not found"));
    assert_eq!(serve(&d, Method::Other, "/a/b.narinfo", None), text(404, "Not found"));
    assert_eq!(serve(&d, Method::Other, "x.narinfo", None), text(404, "Not found"));
    assert_eq!(serve(&d, Method::Get, "/nix-cache-info/", None), text(404, "Not found"));
    assert_eq!(serve(&d, Method::Get, "", None), text(404, "Not found"));
    assert_eq!(serve(&d, Method::Other, "/else", None), text(404, "Not found"));

    let info = serve(&d, Method::Get, &format!("/{}.narinfo", GLIBC), None);
    assert_eq!(info.status, 200);
    assert_eq!(info.headers, vec![header("Content-Type", "text/x-nix-narinfo")]);
    match info.body {
        Body::Text(t) => assert!(t.starts_with("StorePath: /nix/store/xlxiw4rn")),
        other => panic!("unexpected {:?}", other),
    }
    assert_eq!(
        serve(&d, Method::Get, &format!("/{}.narinfo", OPENSSL), None),
        text(404, "Not found")
    );
}

#[test]
fn nix_cache_info_variants() {
    let db = catalog();
    let get = |want, priority| {
        let data = ServerData::init(&db, String::new(), want, priority).unwrap();
        serve(&data, Method::Get, "/nix-cache-info", None)
    };
    assert_eq!(get(false, None), text(200, "StoreDir: /nix/store\n"));
    assert_eq!(
        get(true, None),
        text(200, "StoreDir: /nix/store\nWantMassQuery: 1\n")
    );
    assert_eq!(
        get(false, Some(-3)),
        text(200, "StoreDir: /nix/store\nPriority: -3\n")
    );
    assert_eq!(
        get(false, Some(0)),
        text(200, "StoreDir: /nix/store\nPriority: 0\n")
    );
}

#[test]
fn nar_file_responses() {
    let d = data();
    let whole = serve(&d, Method::Get, &format!("/nar/{}", GLIBC), None);
    assert_eq!(
        whole,
        Response {
            status: 200,
            headers: vec![
                header("Content-Type", "application/x-nix-nar"),
                header("Accept-Ranges", "bytes"),
                header("Content-Length", "1000"),
            ],
            body: Body::NarFile {
                hash: GLIBC.to_owned(),
                start: 0,
                end: 1000
            },
        }
    );
    let part = serve(&d, Method::Get, &format!("/nar/{}", GLIBC), Some("bytes=100-199"));
    assert_eq!(
        part,
        Response {
            status: 206,
            headers: vec![
                header("Content-Type", "application/x-nix-nar"),
                header("Accept-Ranges", "bytes"),
                header("Content-Range", "bytes 100-199/1000"),
                header("Content-Length", "100"),
            ],
            body: Body::NarFile {
                hash: GLIBC.to_owned(),
                start: 99,
                end: 199
            },
        }
    );
    let tail = serve_nar_file(&d, Some("bytes=500-"), GLIBC, true);
    assert_eq!(tail.status, 206);
    assert_eq!(tail.headers[2], header("Content-Range", "bytes 500-1000/1000"));
    assert_eq!(tail.headers[3], header("Content-Length", "501"));
    assert_eq!(tail.body, Body::Empty);
    // Out of range: the header is ignored, the whole file is served.
    let ignored = serve(&d, Method::Head, &format!("/nar/{}", GLIBC), Some("bytes=2000-3000"));
    assert_eq!(ignored.status, 200);
    assert_eq!(ignored.headers.len(), 3);
    assert_eq!(ignored.headers[2], header("Content-Length", "1000"));
    assert_eq!(ignored.body, Body::Empty);
    assert_eq!(
        serve_nar_file(&d, Some("bytes=1-2"), OPENSSL, false),
        text(404, "Not found")
    );
    assert_eq!(serve_nar_info(&d, HELLO).status, 200);
    assert_eq!(serve_nar_info(&d, "nope"), text(404, "Not found"));
}

fn run(mut s: SendFile, events: &[SendEvent]) -> (SendFile, Vec<SendAction>) {
    let mut actions = vec![];
    for e in events {
        let (next, action) = s.step(*e);
        s = next;
        actions.push(action);
    }
    (s, actions)
}

#[test]
fn send_file_streams_the_window() {
    let (s, first) = SendFile::new(99, 199);
    assert_eq!(first, SendAction::Open);
    assert_eq!(
        s,
        SendFile {
            start: 99,
            sent: 0,
            rest_len: 100,
            stage: SendStage::Opening
        }
    );
    let (s, actions) = run(
        s,
        &[
            SendEvent::Opened,
            SendEvent::Sought,
            SendEvent::Ready,
            SendEvent::Read(60),
            SendEvent::Sent,
            SendEvent::Ready,
            SendEvent::Read(40),
            SendEvent::Sent,
        ],
    );
    assert_eq!(
        actions,
        vec![
            SendAction::Seek(99),
            SendAction::AwaitReady,
            SendAction::Read(100),
            SendAction::Send(60),
            SendAction::AwaitReady,
            SendAction::Read(40),
            SendAction::Send(40),
            SendAction::Finish,
        ]
    );
    assert_eq!(s.sent, 100);
    assert_eq!(s.rest_len, 0);
    assert_eq!(s.stage, SendStage::Finished);
    assert_eq!(s.step(SendEvent::Ready).1, SendAction::Finish);
}

#[test]
fn send_file_from_the_start_does_not_seek() {
    let (s, _) = SendFile::new(0, 5);
    assert_eq!(run(s, &[SendEvent::Opened]).1, vec![SendAction::AwaitReady]);
    let (s, _) = SendFile::new(0, 0);
    let (s, actions) = run(s, &[SendEvent::Opened]);
    assert_eq!(actions, vec![SendAction::Finish]);
    assert_eq!(s.stage, SendStage::Finished);
    let (s, _) = SendFile::new(7, 7);
    assert_eq!(
        run(s, &[SendEvent::Opened, SendEvent::Sought]).1,
        vec![SendAction::Seek(7), SendAction::Finish]
    );
}

#[test]
fn send_file_reads_no_more_than_the_buffer() {
    assert_eq!(SEND_FILE_BUFFER_LEN, 64 << 20);
    let big = 3 * (SEND_FILE_BUFFER_LEN as u64) + 1;
    let (s, _) = SendFile::new(0, big);
    let (s, actions) = run(s, &[SendEvent::Opened, SendEvent::Ready]);
    assert_eq!(actions[1], SendAction::Read(SEND_FILE_BUFFER_LEN));
    let (s, _) = run(s, &[SendEvent::Read(SEND_FILE_BUFFER_LEN), SendEvent::Sent]);
    assert_eq!(s.sent, SEND_FILE_BUFFER_LEN as u64);
    assert_eq!(s.rest_len, big - SEND_FILE_BUFFER_LEN as u64);
}

#[test]
fn send_file_aborts_on_failure_and_truncation() {
    let abort = |events: &[SendEvent]| {
        let (s, _) = SendFile::new(1, 10);
        let (s, actions) = run(s, events);
        assert_eq!(*actions.last().unwrap(), SendAction::Abort);
        assert_eq!(s.stage, SendStage::Aborted);
        assert_eq!(s.step(SendEvent::Ready).1, SendAction::Abort);
    };
    abort(&[SendEvent::Failed]);
    abort(&[SendEvent::Opened, SendEvent::Failed]);
    abort(&[SendEvent::Opened, SendEvent::Sought, SendEvent::Failed]);
    abort(&[SendEvent::Opened, SendEvent::Sought, SendEvent::Ready, SendEvent::Failed]);
    // The file is shorter than the catalog says.
    abort(&[SendEvent::Opened, SendEvent::Sought, SendEvent::Ready, SendEvent::Read(0)]);
    // More came than was asked for.
    abort(&[SendEvent::Opened, SendEvent::Sought, SendEvent::Ready, SendEvent::Read(10)]);
    abort(&[
        SendEvent::Opened,
        SendEvent::Sought,
        SendEvent::Ready,
        SendEvent::Read(4),
        SendEvent::Failed,
    ]);
    // Events that are not awaited.
    abort(&[SendEvent::Sought]);
    abort(&[SendEvent::Opened, SendEvent::Ready]);
    abort(&[SendEvent::Opened, SendEvent::Sought, SendEvent::Sent]);
}
