use filehunter::config::{normalize_prefix, SearchMode, SearchPath};
use filehunter::path::{extension_of, join_path, path_within, sanitize_path};
use filehunter::search::{FileSearcher, Location, SearchRoot};

#[test]
fn sanitize_normal_path() {
    let p = sanitize_path("/foo/bar.txt").unwrap();
    assert_eq!(p, "foo/bar.txt");
}

#[test]
fn sanitize_nested_path() {
    let p = sanitize_path("/a/b/c/d.png").unwrap();
    assert_eq!(p, "a/b/c/d.png");
}

#[test]
fn sanitize_single_file() {
    let p = sanitize_path("/readme.md").unwrap();
    assert_eq!(p, "readme.md");
}

#[test]
fn sanitize_rejects_null_byte() {
    assert!(sanitize_path("/foo\0bar").is_none());
}

#[test]
fn sanitize_rejects_dotdot() {
    assert!(sanitize_path("/foo/../etc/passwd").is_none());
}

#[test]
fn sanitize_rejects_dotfile() {
    assert!(sanitize_path("/.env").is_none());
}

#[test]
fn sanitize_rejects_hidden_dir() {
    assert!(sanitize_path("/.git/config").is_none());
}

#[test]
fn sanitize_rejects_empty() {
    assert!(sanitize_path("/").is_none());
}

#[test]
fn sanitize_url_encoded_space() {
    let p = sanitize_path("/foo%20bar.txt").unwrap();
    assert_eq!(p, "foo bar.txt");
}

#[test]
fn sanitize_url_encoded_dotdot() {
    assert!(sanitize_path("/%2e%2e/etc/passwd").is_none());
}

#[test]
fn sanitize_more_cases() {
    // Repeated slashes and inner `.` vanish, as in `Path::components`.
    assert_eq!(sanitize_path("//a///b/./c").unwrap(), "a/b/c");
    // A relative path starting with `.` is refused.
    assert!(sanitize_path("./a").is_none());
    assert_eq!(sanitize_path("a/b").unwrap(), "a/b");
    // Encoded NUL, invalid UTF-8 and encoded slashes.
    assert!(sanitize_path("/a%00b").is_none());
    assert!(sanitize_path("/%ff").is_none());
    assert_eq!(sanitize_path("/a%2Fb").unwrap(), "a/b");
    // A `%` without two hex digits stays as it is.
    assert_eq!(sanitize_path("/100%.txt").unwrap(), "100%.txt");
    assert_eq!(sanitize_path("/%e2%82%ac.txt").unwrap(), "\u{20ac}.txt");
    assert!(sanitize_path("").is_none());
}

#[test]
fn extension_rules() {
    let ext = |s: &str| -> String { extension_of(&s.chars().collect()).into_iter().collect() };
    assert_eq!(ext("photo.JPG"), "JPG");
    assert_eq!(ext("archive.tar.gz"), "gz");
    assert_eq!(ext("README"), "");
    assert_eq!(ext(".env"), "");
    assert_eq!(ext("name."), "");
    assert_eq!(ext(".."), "");
}

#[test]
fn join_and_within() {
    assert_eq!(join_path("/srv/www", "a/b.txt"), "/srv/www/a/b.txt");
    assert_eq!(join_path("/", "a.txt"), "/a.txt");
    assert_eq!(join_path("/srv", "/etc/passwd"), "/etc/passwd");
    assert!(path_within("/srv/www/a.txt", "/srv/www"));
    assert!(path_within("/srv/www", "/srv/www"));
    assert!(path_within("/srv/www/", "/srv/www"));
    assert!(!path_within("/srv/wwwx/a.txt", "/srv/www"));
    assert!(!path_within("/etc/passwd", "/srv/www"));
    assert!(path_within("/etc/passwd", "/"));
}

#[test]
fn accepts_all_when_none() {
    let root = SearchRoot {
        path: "/tmp".to_string(),
        extensions: None,
    };
    assert!(root.accepts("gif"));
}

fn set_of(exts: &[&str]) -> Option<filehunter::config::ExtensionSet> {
    SearchPath {
        root: "/tmp".to_string(),
        extensions: exts.iter().map(|e| e.to_string()).collect(),
    }
    .extension_set()
}

#[test]
fn accepts_matching_case_insensitive() {
    let root = SearchRoot {
        path: "/tmp".to_string(),
        extensions: set_of(&["jpg", "png"]),
    };
    assert!(root.accepts("JPG"));
}

#[test]
fn rejects_non_matching() {
    let root = SearchRoot {
        path: "/tmp".to_string(),
        extensions: set_of(&["jpg"]),
    };
    assert!(!root.accepts("gif"));
}

/// A router over locations that have a prefix and no roots.
fn searcher_with_prefixes(prefixes: &[&str]) -> FileSearcher {
    let locations: Vec<Location> = prefixes
        .iter()
        .map(|p| Location {
            prefix: normalize_prefix(p),
            roots: vec![],
            search_mode: SearchMode::Sequential,
            max_file_size: 0,
        })
        .collect();
    FileSearcher::from_locations(locations, 1_048_576, 65536)
}

#[test]
fn match_exact() {
    let s = searcher_with_prefixes(&["/imgs"]);
    let (loc, rest) = s.match_location("/imgs").unwrap();
    assert_eq!(loc.prefix, "/imgs");
    assert_eq!(rest, "/");
}

#[test]
fn match_prefix_with_rest() {
    let s = searcher_with_prefixes(&["/imgs"]);
    let (loc, rest) = s.match_location("/imgs/a.jpg").unwrap();
    assert_eq!(loc.prefix, "/imgs");
    assert_eq!(rest, "/a.jpg");
}

#[test]
fn match_root_catchall() {
    let s = searcher_with_prefixes(&["/imgs", "/"]);
    let (loc, rest) = s.match_location("/other/x").unwrap();
    assert_eq!(loc.prefix, "/");
    assert_eq!(rest, "/other/x");
}

#[test]
fn match_longest_prefix_wins() {
    let s = searcher_with_prefixes(&["/img", "/img/photos"]);
    let (loc, rest) = s.match_location("/img/photos/a.jpg").unwrap();
    assert_eq!(loc.prefix, "/img/photos");
    assert_eq!(rest, "/a.jpg");
}

#[test]
fn match_no_false_partial() {
    let s = searcher_with_prefixes(&["/img"]);
    assert!(s.match_location("/image/x.jpg").is_none());
}

#[test]
fn match_no_match() {
    let s = searcher_with_prefixes(&["/imgs"]);
    assert!(s.match_location("/videos/x").is_none());
}

#[test]
fn router_order_is_stable() {
    let prefixes = ["/b", "/", "/aa", "/a", "/cc", "/c"];
    let first = searcher_with_prefixes(&prefixes);
    let second = searcher_with_prefixes(&prefixes);
    let order = |s: &FileSearcher| -> Vec<String> {
        s.locations().iter().map(|l| l.prefix.clone()).collect()
    };
    assert_eq!(order(&first), vec!["/aa", "/cc", "/b", "/a", "/c", "/"]);
    assert_eq!(order(&first), order(&second));
}
