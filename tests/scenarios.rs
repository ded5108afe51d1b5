use std::num::NonZeroU32;

use governor::clock::Clock;

use filehunter::config::{ByteSize, Config, LocationConfig, SearchMode, SearchPath, ServerConfig};
use filehunter::path::path_within;
use filehunter::respond::{
    file_reply, found_reply, not_found, screen_request, too_many_requests, Reply, ReplyBody,
};
use filehunter::search::{FileFacts, FileSearcher, Probe, ProbeOutcome, Resolved};

/// A file system in memory: directories, files (path, content, modified time)
/// and links (path, where it resolves to).
struct Disk {
    dirs: Vec<&'static str>,
    files: Vec<(&'static str, &'static str, i128)>,
    links: Vec<(&'static str, &'static str)>,
}

impl Disk {
    fn canonical(&self, p: &str) -> Option<String> {
        if let Some((_, to)) = self.links.iter().find(|(from, _)| *from == p) {
            return Some(to.to_string());
        }
        let known = self.dirs.iter().any(|d| *d == p) || self.files.iter().any(|f| f.0 == p);
        if known {
            Some(p.to_string())
        } else {
            None
        }
    }

    fn facts(&self, p: &str) -> Option<FileFacts> {
        if let Some(f) = self.files.iter().find(|f| f.0 == p) {
            return Some(FileFacts { is_file: true, len: f.1.len() as u64, modified: f.2 });
        }
        if self.dirs.iter().any(|d| *d == p) {
            return Some(FileFacts { is_file: false, len: 4096, modified: 0 });
        }
        None
    }

    fn content(&self, p: &str) -> String {
        self.files.iter().find(|f| f.0 == p).map(|f| f.1.to_string()).unwrap_or_default()
    }

    fn probe(&self, p: Probe) -> ProbeOutcome {
        let canonical = self.canonical(&p.candidate);
        match p.resolve(canonical) {
            Resolved::Done(outcome) => outcome,
            Resolved::Open(file) => {
                let facts = self.facts(file.path());
                file.finish(facts)
            }
        }
    }
}

struct Answer {
    status: u16,
    headers: Vec<(String, String)>,
    body: String,
    served: Option<(usize, String)>,
}

fn header<'a>(a: &'a Answer, name: &str) -> Option<&'a str> {
    a.headers.iter().find(|h| h.0 == name).map(|h| h.1.as_str())
}

fn answer_of(reply: Reply, file_text: String, served: Option<(usize, String)>) -> Answer {
    let body = match reply.body {
        ReplyBody::Empty => String::new(),
        ReplyBody::Text(t) => t,
        ReplyBody::File => file_text,
    };
    Answer { status: reply.status, headers: reply.headers, body, served }
}

/// Handles one request against the disk, the way the server does.
fn serve(searcher: &FileSearcher, disk: &Disk, method: &str, path: &str, content_length: Option<&str>) -> Answer {
    if let Some(reply) = screen_request(method, content_length.map(|v| v.as_bytes()), searcher.max_body_size()) {
        return answer_of(reply, String::new(), None);
    }
    let mut search = searcher.start(path);
    if search.mode() == SearchMode::Concurrent {
        let mut probes = Vec::new();
        while let Some(p) = search.next_probe() {
            probes.push(p);
        }
        // Let the last root finish first.
        for p in probes.into_iter().rev() {
            if search.record(disk.probe(p)) {
                break;
            }
        }
    } else {
        while let Some(p) = search.next_probe() {
            if search.record(disk.probe(p)) {
                break;
            }
        }
    }
    match search.finish() {
        Some(hit) => {
            assert!(path_within(hit.path(), hit.root()));
            let reply = found_reply(method == "HEAD", hit.path(), hit.len());
            let text = disk.content(hit.path());
            answer_of(reply, text, Some((hit.root_index(), hit.path().clone())))
        }
        None => answer_of(not_found(), String::new(), None),
    }
}

fn location(prefix: &str, mode: SearchMode, roots: &[&str], extensions: Vec<String>) -> LocationConfig {
    LocationConfig {
        prefix: prefix.into(),
        mode,
        max_file_size: None,
        paths: roots
            .iter()
            .map(|r| SearchPath { root: r.to_string(), extensions: extensions.clone() })
            .collect(),
    }
}

fn searcher(disk: &Disk, locations: Vec<LocationConfig>) -> FileSearcher {
    let config = Config { server: ServerConfig::default(), locations };
    let resolved: Vec<Vec<Option<String>>> = config
        .locations
        .iter()
        .map(|l| {
            l.paths
                .iter()
                .map(|p| disk.canonical(&p.root).filter(|c| disk.dirs.iter().any(|d| d == c)))
                .collect()
        })
        .collect();
    assert!(config.validate().is_ok());
    FileSearcher::new(&config, &resolved)
}

fn one_root(files: Vec<(&'static str, &'static str, i128)>, extensions: Vec<String>) -> (Disk, FileSearcher) {
    let disk = Disk { dirs: vec!["/r1"], files, links: vec![] };
    let s = searcher(&disk, vec![location("/", SearchMode::Sequential, &["/r1"], extensions)]);
    (disk, s)
}

#[test]
fn get_existing_returns_200() {
    let (disk, s) = one_root(vec![("/r1/test.txt", "hello", 0)], vec![]);
    let a = serve(&s, &disk, "GET", "/test.txt", None);
    assert_eq!(a.status, 200);
    assert_eq!(header(&a, "Content-Length"), Some("5"));
    assert_eq!(header(&a, "Accept-Ranges"), Some("none"));
    assert_eq!(header(&a, "X-Content-Type-Options"), Some("nosniff"));
    assert_eq!(a.body, "hello");
}

#[test]
fn get_missing_returns_404() {
    let (disk, s) = one_root(vec![("/r1/test.txt", "hello", 0)], vec![]);
    let a = serve(&s, &disk, "GET", "/nope.txt", None);
    assert_eq!(a.status, 404);
    assert_eq!(a.body, "Not Found");
    assert_eq!(header(&a, "Content-Type"), Some("text/plain; charset=utf-8"));
}

#[test]
fn head_returns_200_empty_body() {
    let (disk, s) = one_root(vec![("/r1/test.txt", "hello", 0)], vec![]);
    let a = serve(&s, &disk, "HEAD", "/test.txt", None);
    assert_eq!(a.status, 200);
    assert_eq!(header(&a, "Content-Length"), Some("5"));
    assert!(a.body.is_empty(), "HEAD body should be empty, got: {:?}", a.body);
}

#[test]
fn post_returns_405() {
    let (disk, s) = one_root(vec![("/r1/test.txt", "hello", 0)], vec![]);
    let a = serve(&s, &disk, "POST", "/test.txt", None);
    assert_eq!(a.status, 405);
    assert_eq!(a.body, "Method Not Allowed");
}

#[test]
fn oversized_content_length_413() {
    let (disk, s) = one_root(vec![("/r1/x", "tiny", 0)], vec![]);
    let a = serve(&s, &disk, "GET", "/x", Some("999999999"));
    assert_eq!(a.status, 413);
    assert_eq!(a.body, "Payload Too Large");
}

#[test]
fn content_length_limits() {
    let (disk, s) = one_root(vec![("/r1/x", "tiny", 0)], vec![]);
    assert_eq!(serve(&s, &disk, "GET", "/x", Some("1048576")).status, 200);
    assert_eq!(serve(&s, &disk, "GET", "/x", Some("+12")).status, 200);
    assert_eq!(serve(&s, &disk, "GET", "/x", Some("1048577")).status, 413);
    assert_eq!(serve(&s, &disk, "HEAD", "/nothing", Some("abc")).status, 413);
    assert_eq!(serve(&s, &disk, "GET", "/x", Some("")).status, 413);
    assert_eq!(serve(&s, &disk, "GET", "/x", Some("99999999999999999999999")).status, 413);
    assert_eq!(serve(&s, &disk, "DELETE", "/x", Some("99999999999")).status, 405);
}

#[test]
fn mime_jpg() {
    let (disk, s) = one_root(vec![("/r1/photo.jpg", "\u{ff}", 0)], vec![]);
    let a = serve(&s, &disk, "GET", "/photo.jpg", None);
    assert_eq!(a.status, 200);
    assert_eq!(header(&a, "Content-Type"), Some("image/jpeg"));
}

#[test]
fn mime_html() {
    let (disk, s) = one_root(vec![("/r1/page.html", "<html></html>", 0)], vec![]);
    let a = serve(&s, &disk, "GET", "/page.html", None);
    assert_eq!(a.status, 200);
    assert_eq!(header(&a, "Content-Type"), Some("text/html"));
}

#[test]
fn mime_unknown_is_octet_stream() {
    let (disk, s) = one_root(vec![("/r1/blob.zzzq", "x", 0)], vec![]);
    let a = serve(&s, &disk, "GET", "/blob.zzzq", None);
    assert_eq!(header(&a, "Content-Type"), Some("application/octet-stream"));
}

#[test]
fn filter_blocks_disallowed() {
    let (disk, s) = one_root(vec![("/r1/file.exe", "binary", 0)], vec!["jpg".into()]);
    let a = serve(&s, &disk, "GET", "/file.exe", None);
    assert_eq!(a.status, 404);
}

#[test]
fn filter_allows_matching() {
    let (disk, s) = one_root(vec![("/r1/file.jpg", "\u{ff}", 0)], vec!["jpg".into()]);
    let a = serve(&s, &disk, "GET", "/file.jpg", None);
    assert_eq!(a.status, 200);
}

fn two_roots(mode: SearchMode, old: i128, new: i128) -> (Disk, FileSearcher) {
    let disk = Disk {
        dirs: vec!["/r1", "/r2"],
        files: vec![("/r1/data.txt", "first", old), ("/r2/data.txt", "second", new)],
        links: vec![],
    };
    let s = searcher(&disk, vec![location("/", mode, &["/r1", "/r2"], vec![])]);
    (disk, s)
}

#[test]
fn sequential_returns_first_root() {
    let (disk, s) = two_roots(SearchMode::Sequential, 0, 0);
    let a = serve(&s, &disk, "GET", "/data.txt", None);
    assert_eq!(a.status, 200);
    assert_eq!(a.body, "first");
}

#[test]
fn latest_modified_returns_newer() {
    let now: i128 = 1_700_000_000_000_000_000;
    let (disk, s) = two_roots(SearchMode::LatestModified, now - 3_600_000_000_000, now);
    let a = serve(&s, &disk, "GET", "/data.txt", None);
    assert_eq!(a.status, 200);
    assert_eq!(a.body, "second");
}

#[test]
fn latest_modified_tie_prefers_first_root() {
    let (disk, s) = two_roots(SearchMode::LatestModified, 5, 5);
    let a = serve(&s, &disk, "GET", "/data.txt", None);
    assert_eq!(a.body, "first");
    assert_eq!(a.served.unwrap().0, 0);
}

#[test]
fn concurrent_returns_first_arrival() {
    let (disk, s) = two_roots(SearchMode::Concurrent, 0, 0);
    let a = serve(&s, &disk, "GET", "/data.txt", None);
    assert_eq!(a.status, 200);
    assert_eq!(a.body, "second");
}

#[test]
fn sequential_miss_then_hit() {
    let disk = Disk {
        dirs: vec!["/r1", "/r2", "/r3"],
        files: vec![("/r2/only.txt", "two", 0)],
        links: vec![],
    };
    let s = searcher(&disk, vec![location("/", SearchMode::Sequential, &["/r1", "/r2", "/r3"], vec![])]);
    let a = serve(&s, &disk, "GET", "/only.txt", None);
    assert_eq!(a.body, "two");
    assert_eq!(a.served, Some((1, "/r2/only.txt".to_string())));
}

#[test]
fn longest_prefix_routing() {
    let disk = Disk {
        dirs: vec!["/a", "/b"],
        files: vec![("/a/photo.jpg", "img-content", 0), ("/b/photo.jpg", "root-content", 0)],
        links: vec![],
    };
    let s = searcher(
        &disk,
        vec![
            location("/img", SearchMode::Sequential, &["/a"], vec![]),
            location("/", SearchMode::Sequential, &["/b"], vec![]),
        ],
    );
    let a = serve(&s, &disk, "GET", "/img/photo.jpg", None);
    assert_eq!(a.status, 200);
    assert_eq!(a.body, "img-content");
    let b = serve(&s, &disk, "GET", "/photo.jpg", None);
    assert_eq!(b.body, "root-content");
}

#[test]
fn rate_limited_returns_429() {
    let (disk, s) = one_root(vec![("/r1/test.txt", "hello", 0)], vec![]);
    let one = NonZeroU32::new(1).unwrap();
    let limiter = governor::RateLimiter::direct(governor::Quota::per_second(one).allow_burst(one));
    let first = match limiter.check() {
        Ok(()) => serve(&s, &disk, "GET", "/test.txt", None),
        Err(_) => panic!("the first request is allowed"),
    };
    assert_eq!(first.status, 200);
    let second = match limiter.check() {
        Ok(()) => serve(&s, &disk, "GET", "/test.txt", None),
        Err(not_until) => {
            let wait = not_until.wait_time_from(governor::clock::DefaultClock::default().now());
            answer_of(too_many_requests(wait.as_secs()), String::new(), None)
        }
    };
    assert_eq!(second.status, 429);
    assert_eq!(header(&second, "Retry-After"), Some("1"));
    assert_eq!(second.body, "Too Many Requests");
}

#[test]
fn retry_after_counts_whole_seconds() {
    let a = answer_of(too_many_requests(0), String::new(), None);
    assert_eq!(header(&a, "Retry-After"), Some("1"));
    let b = answer_of(too_many_requests(42), String::new(), None);
    assert_eq!(header(&b, "Retry-After"), Some("42"));
}

#[test]
fn encoded_dotdot_returns_404() {
    let disk = Disk { dirs: vec!["/r1", "/etc"], files: vec![("/etc/passwd", "root", 0)], links: vec![] };
    let s = searcher(&disk, vec![location("/", SearchMode::Sequential, &["/r1"], vec![])]);
    assert_eq!(serve(&s, &disk, "GET", "/%2e%2e/etc/passwd", None).status, 404);
}

#[test]
fn hidden_files_return_404() {
    let (disk, s) = one_root(vec![("/r1/.env", "secret", 0), ("/r1/.git/config", "x", 0)], vec![]);
    assert_eq!(serve(&s, &disk, "GET", "/.env", None).status, 404);
    assert_eq!(serve(&s, &disk, "GET", "/.git/config", None).status, 404);
}

#[test]
fn escaping_link_stops_sequential_search() {
    let disk = Disk {
        dirs: vec!["/r1", "/r2"],
        files: vec![("/etc/shadow", "x", 0), ("/r2/leak.txt", "ok", 0)],
        links: vec![("/r1/leak.txt", "/etc/shadow")],
    };
    let s = searcher(&disk, vec![location("/", SearchMode::Sequential, &["/r1", "/r2"], vec![])]);
    assert_eq!(serve(&s, &disk, "GET", "/leak.txt", None).status, 404);
    let c = searcher(&disk, vec![location("/", SearchMode::Concurrent, &["/r1", "/r2"], vec![])]);
    let a = serve(&c, &disk, "GET", "/leak.txt", None);
    assert_eq!(a.status, 200);
    assert_eq!(a.body, "ok");
}

#[test]
fn oversized_and_non_regular_files_are_skipped() {
    let disk = Disk {
        dirs: vec!["/r1", "/r2", "/r1/sub"],
        files: vec![("/r1/big.bin", "0123456789", 0), ("/r2/big.bin", "small", 0)],
        links: vec![],
    };
    let mut loc = location("/", SearchMode::Sequential, &["/r1", "/r2"], vec![]);
    loc.max_file_size = Some(ByteSize(6));
    let s = searcher(&disk, vec![loc]);
    assert_eq!(serve(&s, &disk, "GET", "/big.bin", None).body, "small");
    assert_eq!(serve(&s, &disk, "GET", "/sub", None).status, 404);
}

#[test]
fn unresolved_roots_are_left_out() {
    let disk = Disk { dirs: vec!["/r2"], files: vec![("/r2/a.txt", "a", 0)], links: vec![] };
    let s = searcher(&disk, vec![location("/files", SearchMode::Sequential, &["/missing", "/r2"], vec![])]);
    assert_eq!(s.locations()[0].roots.len(), 1);
    assert_eq!(serve(&s, &disk, "GET", "/files/a.txt", None).body, "a");
    assert_eq!(serve(&s, &disk, "GET", "/files", None).status, 404);
    assert_eq!(serve(&s, &disk, "GET", "/a.txt", None).status, 404);
}

#[test]
fn file_reply_headers_in_order() {
    let r = file_reply(false, "text/plain".to_string(), 12345);
    assert_eq!(r.status, 200);
    let names: Vec<(&str, &str)> = r.headers.iter().map(|h| (h.0.as_str(), h.1.as_str())).collect();
    assert_eq!(
        names,
        vec![
            ("Content-Type", "text/plain"),
            ("Content-Length", "12345"),
            ("Accept-Ranges", "none"),
            ("X-Content-Type-Options", "nosniff"),
        ]
    );
    assert!(matches!(r.body, ReplyBody::File));
    assert!(matches!(file_reply(true, "x/y".to_string(), 0).body, ReplyBody::Empty));
}
