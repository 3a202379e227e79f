//! The decisions of the HTTP serving layer: which response answers a
//! request, which bytes of a payload a range header asks for, and how a
//! payload is streamed.

pub mod nar_info_cache;

use vstd::prelude::*;
use vstd::string::*;

use crate::database::{Database, Error};
use crate::server::nar_info_cache::{lookup, served, CacheEntryView, NarInfoCache};
use crate::text::{
    chars_of, decimal, find_char, index_of, lemma_index_of, parse_u64, parse_u64_in,
    push_decimal, push_signed_decimal, range_is, signed_decimal, string_of,
};

verus! {

/// The largest piece of a payload that is read and sent at once: 64 MiB.
pub const SEND_FILE_BUFFER_LEN: usize = 0x400_0000;

/// The method of a request, as far as the routes tell methods apart.
#[derive(Debug, Clone, Copy, PartialEq, Eq, Structural)]
pub enum Method {
    Get,
    Head,
    Other,
}

/// The body of a response.
#[derive(Debug, PartialEq, Eq)]
pub enum Body {
    /// No body.
    Empty,
    /// The given text.
    Text(String),
    /// The bytes `start..end` of the payload file named `hash`.
    NarFile { hash: String, start: u64, end: u64 },
}

/// What a `Body` holds.
pub enum BodyView {
    Empty,
    Text(Seq<char>),
    NarFile { hash: Seq<char>, start: u64, end: u64 },
}

impl View for Body {
    type V = BodyView;

    open spec fn view(&self) -> BodyView {
        match self {
            Body::Empty => BodyView::Empty,
            Body::Text(t) => BodyView::Text(t@),
            Body::NarFile { hash, start, end } => BodyView::NarFile {
                hash: hash@,
                start: *start,
                end: *end,
            },
        }
    }
}

/// A response: status code, headers in the order in which they are set, body.
#[derive(Debug, PartialEq, Eq)]
pub struct Response {
    pub status: u16,
    pub headers: Vec<(String, String)>,
    pub body: Body,
}

/// What a `Response` holds.
pub struct ResponseView {
    pub status: u16,
    pub headers: Seq<(Seq<char>, Seq<char>)>,
    pub body: BodyView,
}

/// The headers of a response, as texts.
pub open spec fn headers_view(headers: Seq<(String, String)>) -> Seq<(Seq<char>, Seq<char>)> {
    Seq::new(headers.len(), |i: int| (headers[i].0@, headers[i].1@))
}

impl View for Response {
    type V = ResponseView;

    open spec fn view(&self) -> ResponseView {
        ResponseView {
            status: self.status,
            headers: headers_view(self.headers@),
            body: self.body@,
        }
    }
}

/// `s` begins with `p`.
pub open spec fn has_prefix(s: Seq<char>, p: Seq<char>) -> bool {
    s.len() >= p.len() && s.subrange(0, p.len() as int) == p
}

/// `s` ends with `p`.
pub open spec fn has_suffix(s: Seq<char>, p: Seq<char>) -> bool {
    s.len() >= p.len() && s.subrange(s.len() - p.len(), s.len() as int) == p
}

/// The byte window that a range header asks for in a payload of `file_size`
/// bytes, as start and end, the end not included. The header is
/// `bytes=LHS-` or `bytes=LHS-RHS`, with `LHS` at least 1. The open form
/// gives `LHS - 1` to the end of the payload, where `LHS - 1` lies in it; the
/// closed form gives `LHS - 1` to `RHS`, where `LHS <= RHS < file_size`. Any
/// other header gives no window.
pub open spec fn range_window(header: Seq<char>, file_size: u64) -> Option<(u64, u64)> {
    if !has_prefix(header, "bytes="@) {
        None
    } else {
        let s = header.subrange(6, header.len() as int);
        let sep = index_of(s, '-');
        if !(0 <= sep < s.len()) {
            None
        } else {
            match parse_u64(s.subrange(0, sep)) {
                None => None,
                Some(lhs) => if lhs == 0 {
                    None
                } else if sep + 1 == s.len() {
                    if lhs - 1 < file_size {
                        Some(((lhs - 1) as u64, file_size))
                    } else {
                        None
                    }
                } else {
                    match parse_u64(s.subrange(sep + 1, s.len() as int)) {
                        None => None,
                        Some(rhs) => if lhs <= rhs && rhs < file_size {
                            Some(((lhs - 1) as u64, rhs))
                        } else {
                            None
                        },
                    }
                },
            }
        }
    }
}

/// The byte window that a range header asks for; see `range_window`.
pub fn parse_content_range(header: &str, file_size: u64) -> (r: Option<(u64, u64)>)
    ensures
        r == range_window(header@, file_size),
        r matches Some(w) ==> w.0 <= w.1 <= file_size && w.0 < file_size,
{
    let chars = chars_of(header);
    let n = chars.len();
    proof {
        reveal_strlit("bytes=");
    }
    if n < 6 || !range_is(&chars, 0, 6, "bytes=") {
        return None;
    }
    let ghost s = chars@.subrange(6, n as int);
    let sep = find_char(&chars, 6, n, '-');
    if sep >= n {
        return None;
    }
    proof {
        lemma_index_of(s, '-');
        assert(s.subrange(0, sep - 6) =~= chars@.subrange(6, sep as int));
        assert(s.subrange(sep - 6 + 1, s.len() as int) =~= chars@.subrange(sep + 1, n as int));
    }
    let lhs = match parse_u64_in(&chars, 6, sep) {
        Some(lhs) => lhs,
        None => {
            return None;
        },
    };
    if lhs == 0 {
        return None;
    }
    let start = lhs - 1;
    if sep + 1 == n {
        if start < file_size {
            return Some((start, file_size));
        }
        return None;
    }
    match parse_u64_in(&chars, sep + 1, n) {
        Some(rhs) => {
            if lhs <= rhs && rhs < file_size {
                Some((start, rhs))
            } else {
                None
            }
        },
        None => None,
    }
}

/// What the server answers from: the index of the narinfo texts, the
/// directory of the payload files, and the text of `nix-cache-info`.
pub struct ServerData {
    nar_info_cache: NarInfoCache,
    nar_file_dir: String,
    nix_cache_info: String,
}

/// What a `ServerData` holds.
pub struct ServerDataView {
    pub cache: Seq<CacheEntryView>,
    pub nar_file_dir: Seq<char>,
    pub nix_cache_info: Seq<char>,
}

impl View for ServerData {
    type V = ServerDataView;

    closed spec fn view(&self) -> ServerDataView {
        ServerDataView {
            cache: self.nar_info_cache@,
            nar_file_dir: self.nar_file_dir@,
            nix_cache_info: self.nix_cache_info@,
        }
    }
}

/// The text of `nix-cache-info`: the store directory, then, where asked
/// for, the mass query flag and the priority.
pub open spec fn nix_cache_info_text(want_mass_query: bool, priority: Option<i32>) -> Seq<char> {
    "StoreDir: /nix/store\n"@ + (if want_mass_query {
        "WantMassQuery: 1\n"@
    } else {
        Seq::empty()
    }) + (match priority {
        Some(p) => "Priority: "@ + signed_decimal(p as int) + "\n"@,
        None => Seq::empty(),
    })
}

/// Where a request goes.
pub enum Route {
    /// `/`
    Index,
    /// `/nix-cache-info`
    CacheInfo,
    /// `/nar/<hash>`
    NarFile(Seq<char>),
    /// `/<hash>.narinfo`, with no further `/`
    NarInfo(Seq<char>),
    /// Any other path.
    Unknown,
}

/// The route of a path.
pub open spec fn route_of(path: Seq<char>) -> Route {
    if path == "/"@ {
        Route::Index
    } else if path == "/nix-cache-info"@ {
        Route::CacheInfo
    } else if has_prefix(path, "/nar/"@) {
        Route::NarFile(path.subrange(5, path.len() as int))
    } else if path.len() >= 9 && path[0] == '/' && index_of(path.subrange(1, path.len() as int), '/')
        == path.len() - 1 && has_suffix(path, ".narinfo"@) {
        Route::NarInfo(path.subrange(1, path.len() - 8))
    } else {
        Route::Unknown
    }
}

/// A response without headers.
pub open spec fn simple_response_view(status: u16, body: Seq<char>) -> ResponseView {
    ResponseView { status, headers: Seq::empty(), body: BodyView::Text(body) }
}

/// The response to a request for the narinfo of `hash`.
pub open spec fn nar_info_response(cache: Seq<CacheEntryView>, hash: Seq<char>) -> ResponseView {
    match lookup(cache, hash) {
        Some(e) => ResponseView {
            status: 200,
            headers: seq![("Content-Type"@, "text/x-nix-narinfo"@)],
            body: BodyView::Text(e.0),
        },
        None => simple_response_view(404, "Not found"@),
    }
}

/// The value of `Content-Range` for a window of a payload.
pub open spec fn content_range_text(start: u64, end: u64, file_size: u64) -> Seq<char> {
    "bytes "@ + decimal((start + 1) as nat) + "-"@ + decimal(end as nat) + "/"@ + decimal(
        file_size as nat,
    )
}

/// The response to a request for the payload of `hash`: 404 where the index
/// does not hold the hash; else the whole payload with status 200, or, where
/// the range header gives a window, that window with status 206 and a
/// `Content-Range` header. Without `head_only` the body is the window of
/// the payload file; with it there is no body.
pub open spec fn nar_file_response(
    cache: Seq<CacheEntryView>,
    range: Option<Seq<char>>,
    hash: Seq<char>,
    head_only: bool,
) -> ResponseView {
    match lookup(cache, hash) {
        None => simple_response_view(404, "Not found"@),
        Some(e) => {
            let file_size = e.1;
            let window = match range {
                Some(header) => range_window(header, file_size),
                None => None,
            };
            let (start, end) = match window {
                Some(w) => w,
                None => (0u64, file_size),
            };
            let first = seq![
                ("Content-Type"@, "application/x-nix-nar"@),
                ("Accept-Ranges"@, "bytes"@),
            ];
            let with_range = match window {
                Some(w) => first.push(("Content-Range"@, content_range_text(w.0, w.1, file_size))),
                None => first,
            };
            ResponseView {
                status: if window is Some {
                    206
                } else {
                    200
                },
                headers: with_range.push(("Content-Length"@, decimal((end - start) as nat))),
                body: if head_only {
                    BodyView::Empty
                } else {
                    BodyView::NarFile { hash, start, end }
                },
            }
        },
    }
}

/// The response to a request.
pub open spec fn response_to(
    data: ServerDataView,
    method: Method,
    path: Seq<char>,
    range: Option<Seq<char>>,
) -> ResponseView {
    match route_of(path) {
        Route::Index => if method == Method::Get {
            simple_response_view(200, "It works"@)
        } else {
            simple_response_view(404, "Not found"@)
        },
        Route::CacheInfo => if method == Method::Get {
            simple_response_view(200, data.nix_cache_info)
        } else {
            simple_response_view(405, Seq::empty())
        },
        Route::NarFile(hash) => if method == Method::Get || method == Method::Head {
            nar_file_response(data.cache, range, hash, method == Method::Head)
        } else {
            simple_response_view(405, Seq::empty())
        },
        Route::NarInfo(hash) => if method == Method::Get {
            nar_info_response(data.cache, hash)
        } else {
            simple_response_view(405, Seq::empty())
        },
        Route::Unknown => simple_response_view(404, "Not found"@),
    }
}

/// A response without headers.
fn simple_response(status: u16, body: &str) -> (r: Response)
    ensures
        r@ == simple_response_view(status, body@),
{
    let r = Response { status, headers: Vec::new(), body: Body::Text(body.to_owned()) };
    assert(r@.headers =~= Seq::empty());
    r
}

/// A header.
fn header(name: &str, value: String) -> (r: (String, String))
    ensures
        r.0@ == name@,
        r.1@ == value@,
{
    (name.to_owned(), value)
}

/// The view of an optional string slice.
pub open spec fn opt_str_view(o: Option<&str>) -> Option<Seq<char>> {
    match o {
        Some(s) => Some(s@),
        None => None,
    }
}

impl ServerData {
    /// The invariant of the representation.
    pub closed spec fn wf(&self) -> bool {
        self.nar_info_cache.wf()
    }

    /// Builds what the server answers from: the index over the available
    /// rows of `db`, and the text of `nix-cache-info`.
    pub fn init(
        db: &Database,
        nar_file_dir: String,
        want_mass_query: bool,
        priority: Option<i32>,
    ) -> (r: Result<ServerData, Error>)
        requires
            db.wf(),
        ensures
            r matches Ok(data) && {
                &&& data.wf()
                &&& data@.nar_file_dir == nar_file_dir@
                &&& data@.nix_cache_info == nix_cache_info_text(want_mass_query, priority)
                &&& forall|h: Seq<char>| #[trigger] lookup(data@.cache, h) == served(db@, h)
            },
    {
        let mut nix_cache_info = String::new();
        nix_cache_info.append("StoreDir: /nix/store\n");
        if want_mass_query {
            nix_cache_info.append("WantMassQuery: 1\n");
        }
        let ghost head = nix_cache_info@;
        match priority {
            Some(p) => {
                nix_cache_info.append("Priority: ");
                push_signed_decimal(&mut nix_cache_info, p);
                nix_cache_info.append("\n");
                assert(nix_cache_info@ =~= head + ("Priority: "@ + signed_decimal(p as int)
                    + "\n"@));
            },
            None => {
                assert(nix_cache_info@ =~= head + Seq::<char>::empty());
            },
        }
        assert(head =~= "StoreDir: /nix/store\n"@ + (if want_mass_query {
            "WantMassQuery: 1\n"@
        } else {
            Seq::empty()
        }));
        let nar_info_cache = match NarInfoCache::init(db) {
            Ok(cache) => cache,
            Err(e) => {
                return Err(e);
            },
        };
        let data = ServerData { nar_info_cache, nar_file_dir, nix_cache_info };
        assert forall|h: Seq<char>| #[trigger] lookup(data@.cache, h) == served(db@, h) by {
            assert(data.nar_info_cache.spec_get(h) == served(db@, h));
        }
        Ok(data)
    }

    /// The directory of the payload files.
    pub fn nar_file_dir(&self) -> (r: &str)
        ensures
            r@ == self@.nar_file_dir,
    {
        self.nar_file_dir.as_str()
    }
}

/// The response to a request for the narinfo of `hash`.
pub fn serve_nar_info(data: &ServerData, hash: &str) -> (r: Response)
    requires
        data.wf(),
    ensures
        r@ == nar_info_response(data@.cache, hash@),
{
    match data.nar_info_cache.get_info(hash) {
        Some(info) => {
            let mut headers: Vec<(String, String)> = Vec::new();
            headers.push(header("Content-Type", "text/x-nix-narinfo".to_owned()));
            let r = Response { status: 200, headers, body: Body::Text(info.to_owned()) };
            assert(r@.headers =~= seq![("Content-Type"@, "text/x-nix-narinfo"@)]);
            r
        },
        None => simple_response(404, "Not found"),
    }
}

/// The response to a request for the payload of `hash`; see
/// `nar_file_response`.
pub fn serve_nar_file(
    data: &ServerData,
    range: Option<&str>,
    hash: &str,
    head_only: bool,
) -> (r: Response)
    requires
        data.wf(),
    ensures
        r@ == nar_file_response(data@.cache, opt_str_view(range), hash@, head_only),
{
    let file_size = match data.nar_info_cache.get_file_size(hash) {
        Some(file_size) => file_size,
        None => {
            return simple_response(404, "Not found");
        },
    };
    let mut headers: Vec<(String, String)> = Vec::new();
    headers.push(header("Content-Type", "application/x-nix-nar".to_owned()));
    headers.push(header("Accept-Ranges", "bytes".to_owned()));
    let ghost first = seq![
        ("Content-Type"@, "application/x-nix-nar"@),
        ("Accept-Ranges"@, "bytes"@),
    ];
    assert(headers_view(headers@) =~= first);
    let window = match range {
        Some(header) => parse_content_range(header, file_size),
        None => None,
    };
    let mut status: u16 = 200;
    let (start, end) = match window {
        Some((start, end)) => {
            status = 206;
            let mut value = String::new();
            value.append("bytes ");
            push_decimal(&mut value, start + 1);
            value.append("-");
            push_decimal(&mut value, end);
            value.append("/");
            push_decimal(&mut value, file_size);
            assert(value@ =~= content_range_text(start, end, file_size));
            headers.push(header("Content-Range", value));
            assert(headers_view(headers@) =~= first.push(
                ("Content-Range"@, content_range_text(start, end, file_size)),
            ));
            (start, end)
        },
        None => (0, file_size),
    };
    let ghost with_range = headers_view(headers@);
    let mut length = String::new();
    push_decimal(&mut length, end - start);
    assert(length@ =~= decimal((end - start) as nat));
    headers.push(header("Content-Length", length));
    assert(headers_view(headers@) =~= with_range.push(
        ("Content-Length"@, decimal((end - start) as nat)),
    ));
    let body = if head_only {
        Body::Empty
    } else {
        Body::NarFile { hash: hash.to_owned(), start, end }
    };
    Response { status, headers, body }
}

/// The response to a request with the given method, path and, where
/// the request has one that is text, `Range` header.
pub fn serve(data: &ServerData, method: Method, path: &str, range: Option<&str>) -> (r: Response)
    requires
        data.wf(),
    ensures
        r@ == response_to(data@, method, path@, opt_str_view(range)),
{
    let chars = chars_of(path);
    let n = chars.len();
    proof {
        reveal_strlit("/");
        reveal_strlit("/nix-cache-info");
        reveal_strlit("/nar/");
        reveal_strlit(".narinfo");
        reveal_strlit("");
        assert(""@ =~= Seq::<char>::empty());
        assert(chars@.subrange(0, n as int) =~= path@);
    }
    if range_is(&chars, 0, n, "/") {
        return match method {
            Method::Get => simple_response(200, "It works"),
            _ => simple_response(404, "Not found"),
        };
    }
    if range_is(&chars, 0, n, "/nix-cache-info") {
        return match method {
            Method::Get => {
                let r = Response {
                    status: 200,
                    headers: Vec::new(),
                    body: Body::Text(data.nix_cache_info.clone()),
                };
                assert(r@.headers =~= Seq::empty());
                r
            },
            _ => simple_response(405, ""),
        };
    }
    if n >= 5 && range_is(&chars, 0, 5, "/nar/") {
        let hash = string_of(&chars, 5, n);
        return match method {
            Method::Get => serve_nar_file(data, range, hash.as_str(), false),
            Method::Head => serve_nar_file(data, range, hash.as_str(), true),
            Method::Other => simple_response(405, ""),
        };
    }
    if n >= 9 && chars[0] == '/' && find_char(&chars, 1, n, '/') == n && range_is(
        &chars,
        n - 8,
        n,
        ".narinfo",
    ) {
        let hash = string_of(&chars, 1, n - 8);
        return match method {
            Method::Get => serve_nar_info(data, hash.as_str()),
            _ => simple_response(405, ""),
        };
    }
    simple_response(404, "Not found")
}

/// Where the streaming of a payload stands.
#[derive(Debug, Clone, Copy, PartialEq, Eq, Structural)]
pub enum SendStage {
    /// The file is being opened.
    Opening,
    /// The file is being positioned at the start of the window.
    Seeking,
    /// The body is awaited to take more data.
    Waiting,
    /// Up to `asked` bytes are being read.
    Reading { asked: usize },
    /// `len` bytes that were read are being sent.
    Sending { len: usize },
    /// The whole window was sent.
    Finished,
    /// The body was aborted.
    Aborted,
}

/// What happened to the last action of a streaming.
#[derive(Debug, Clone, Copy, PartialEq, Eq, Structural)]
pub enum SendEvent {
    /// The file is open.
    Opened,
    /// The file is positioned.
    Sought,
    /// The body takes more data.
    Ready,
    /// So many bytes were read; none at the end of the file.
    Read(usize),
    /// The bytes were handed to the body.
    Sent,
    /// The action failed, or the peer is gone.
    Failed,
}

/// What a streaming does next.
#[derive(Debug, Clone, Copy, PartialEq, Eq, Structural)]
pub enum SendAction {
    /// Open the file.
    Open,
    /// Position the file at this offset.
    Seek(u64),
    /// Wait until the body takes more data.
    AwaitReady,
    /// Read up to so many bytes.
    Read(usize),
    /// Send the first so many of the bytes read.
    Send(usize),
    /// End the body: everything was sent.
    Finish,
    /// Abort the body.
    Abort,
}

/// The streaming of one window of a payload file.
#[derive(Debug, Clone, Copy, PartialEq, Eq, Structural)]
pub struct SendFile {
    /// The offset at which the window starts.
    pub start: u64,
    /// The bytes of the window that were sent.
    pub sent: u64,
    /// The bytes of the window that are still to send.
    pub rest_len: u64,
    /// Where the streaming stands.
    pub stage: SendStage,
}

/// The number of bytes to read next: what is left, but no more than the
/// buffer holds.
pub open spec fn next_read_len(rest_len: u64) -> usize {
    if rest_len < SEND_FILE_BUFFER_LEN {
        rest_len as usize
    } else {
        SEND_FILE_BUFFER_LEN
    }
}

/// The streaming when the file is open and positioned: done where nothing
/// is left, else waiting for the body.
pub open spec fn enter_sending(s: SendFile) -> (SendFile, SendAction) {
    if s.rest_len == 0 {
        (SendFile { stage: SendStage::Finished, ..s }, SendAction::Finish)
    } else {
        (SendFile { stage: SendStage::Waiting, ..s }, SendAction::AwaitReady)
    }
}

/// The streaming after an event, and what it does next. An event that the
/// stage does not await, a failure, and a read that gives nothing or more
/// than was asked for abort the body.
pub open spec fn send_step(s: SendFile, event: SendEvent) -> (SendFile, SendAction) {
    let abort = (SendFile { stage: SendStage::Aborted, ..s }, SendAction::Abort);
    match (s.stage, event) {
        (SendStage::Finished, _) => (s, SendAction::Finish),
        (SendStage::Opening, SendEvent::Opened) => if s.start != 0 {
            (SendFile { stage: SendStage::Seeking, ..s }, SendAction::Seek(s.start))
        } else {
            enter_sending(s)
        },
        (SendStage::Seeking, SendEvent::Sought) => enter_sending(s),
        (SendStage::Waiting, SendEvent::Ready) => (
            SendFile { stage: SendStage::Reading { asked: next_read_len(s.rest_len) }, ..s },
            SendAction::Read(next_read_len(s.rest_len)),
        ),
        (SendStage::Reading { asked }, SendEvent::Read(got)) => if 0 < got <= asked && got
            <= s.rest_len {
            (SendFile { stage: SendStage::Sending { len: got }, ..s }, SendAction::Send(got))
        } else {
            abort
        },
        (SendStage::Sending { len }, SendEvent::Sent) => if len <= s.rest_len && s.sent + len
            <= u64::MAX {
            enter_sending(
                SendFile {
                    sent: (s.sent + len) as u64,
                    rest_len: (s.rest_len - len) as u64,
                    ..s
                },
            )
        } else {
            abort
        },
        _ => abort,
    }
}

/// What holds of a streaming of a window of `total` bytes: what was sent
/// and what is left make up the window, and no more is read or sent at
/// once than is left.
pub open spec fn send_inv(s: SendFile, total: u64) -> bool {
    &&& s.sent + s.rest_len == total
    &&& s.stage matches SendStage::Reading { asked } ==> 0 < asked <= s.rest_len && asked
        <= SEND_FILE_BUFFER_LEN
    &&& s.stage matches SendStage::Sending { len } ==> 0 < len <= s.rest_len && len
        <= SEND_FILE_BUFFER_LEN
    &&& s.stage == SendStage::Waiting ==> s.rest_len > 0
    &&& s.stage == SendStage::Finished ==> s.rest_len == 0
}

/// Every step keeps `send_inv`; so the body is ended only when the whole
/// window was sent.
pub proof fn lemma_send_step(s: SendFile, event: SendEvent, total: u64)
    requires
        send_inv(s, total),
    ensures
        send_inv(send_step(s, event).0, total),
        send_step(s, event).1 == SendAction::Finish ==> send_step(s, event).0.sent == total,
        send_step(s, event).1 matches SendAction::Read(n) ==> 0 < n <= SEND_FILE_BUFFER_LEN && n
            <= send_step(s, event).0.rest_len,
{
}

impl SendFile {
    /// The streaming of the bytes `start..end` of a file, before its first
    /// action, which is to open the file.
    pub fn new(start: u64, end: u64) -> (r: (SendFile, SendAction))
        requires
            start <= end,
        ensures
            r.0 == (SendFile {
                start,
                sent: 0,
                rest_len: (end - start) as u64,
                stage: SendStage::Opening,
            }),
            r.1 == SendAction::Open,
            send_inv(r.0, (end - start) as u64),
    {
        (
            SendFile { start, sent: 0, rest_len: end - start, stage: SendStage::Opening },
            SendAction::Open,
        )
    }

    fn enter(self) -> (r: (SendFile, SendAction))
        ensures
            r == enter_sending(self),
    {
        if self.rest_len == 0 {
            (SendFile { stage: SendStage::Finished, ..self }, SendAction::Finish)
        } else {
            (SendFile { stage: SendStage::Waiting, ..self }, SendAction::AwaitReady)
        }
    }

    /// The streaming after `event`, and what it does next.
    pub fn step(self, event: SendEvent) -> (r: (SendFile, SendAction))
        ensures
            r == send_step(self, event),
    {
        let abort = (SendFile { stage: SendStage::Aborted, ..self }, SendAction::Abort);
        match (self.stage, event) {
            (SendStage::Finished, _) => (self, SendAction::Finish),
            (SendStage::Opening, SendEvent::Opened) => {
                if self.start != 0 {
                    (SendFile { stage: SendStage::Seeking, ..self }, SendAction::Seek(self.start))
                } else {
                    self.enter()
                }
            },
            (SendStage::Seeking, SendEvent::Sought) => self.enter(),
            (SendStage::Waiting, SendEvent::Ready) => {
                let asked = if self.rest_len < SEND_FILE_BUFFER_LEN as u64 {
                    self.rest_len as usize
                } else {
                    SEND_FILE_BUFFER_LEN
                };
                (SendFile { stage: SendStage::Reading { asked }, ..self }, SendAction::Read(asked))
            },
            (SendStage::Reading { asked }, SendEvent::Read(got)) => {
                if 0 < got && got <= asked && got as u64 <= self.rest_len {
                    (
                        SendFile { stage: SendStage::Sending { len: got }, ..self },
                        SendAction::Send(got),
                    )
                } else {
                    abort
                }
            },
            (SendStage::Sending { len }, SendEvent::Sent) => {
                if len as u64 <= self.rest_len && self.sent <= u64::MAX - len as u64 {
                    let next = SendFile {
                        sent: self.sent + len as u64,
                        rest_len: self.rest_len - len as u64,
                        ..self
                    };
                    next.enter()
                } else {
                    abort
                }
            },
            _ => abort,
        }
    }
}

} // verus!
