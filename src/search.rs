//! Search roots, locations, the longest-prefix router and the search of a
//! request over the roots of its location.

use vstd::prelude::*;

use crate::path::path_starts_with;
use crate::config::{
    ascii_lower, lowercase_ascii, normal_extensions, normal_prefix, normalize_prefix, ExtensionSet,
    LocationConfig, SearchMode, SearchPath,
};

verus! {

/// A directory that files are served from, with the extensions it allows
/// (`None`: every extension).
#[derive(Debug)]
pub struct SearchRoot {
    /// Canonical absolute path of the directory.
    pub path: String,
    pub extensions: Option<ExtensionSet>,
}

/// Whether a root with these allowed extensions serves extension `ext` (ASCII
/// case ignored).
pub open spec fn allows(exts: Option<Set<Seq<char>>>, ext: Seq<char>) -> bool {
    match exts {
        None => true,
        Some(set) => set.contains(ext.map_values(|c: char| ascii_lower(c))),
    }
}

/// A root as plain values: its directory and its allowed extensions.
pub open spec fn root_model(r: SearchRoot) -> (Seq<char>, Option<Set<Seq<char>>>) {
    (
        r.path@,
        match r.extensions {
            None => None,
            Some(s) => Some(s@),
        },
    )
}

impl SearchRoot {
    /// Whether this root serves files with extension `ext`.
    pub fn accepts(&self, ext: &str) -> (r: bool)
        ensures
            r == allows(root_model(*self).1, ext@),
    {
        match &self.extensions {
            None => true,
            Some(set) => {
                let low = lowercase_ascii(ext);
                set.contains(low.as_str())
            },
        }
    }
}

/// The roots that a location keeps: those whose directory resolved, in order.
pub open spec fn kept_roots(paths: Seq<SearchPath>, resolved: Seq<Option<String>>) -> Seq<
    (Seq<char>, Option<Set<Seq<char>>>),
>
    decreases paths.len(),
{
    if paths.len() == 0 {
        Seq::empty()
    } else {
        let prev = kept_roots(paths.drop_last(), resolved.take(paths.len() - 1));
        match resolved[paths.len() - 1] {
            Some(dir) => prev.push(
                (
                    dir@,
                    if paths.last().extensions@.len() == 0 {
                        None
                    } else {
                        Some(normal_extensions(paths.last().extensions@))
                    },
                ),
            ),
            None => prev,
        }
    }
}

pub open spec fn roots_view(v: Seq<SearchRoot>) -> Seq<(Seq<char>, Option<Set<Seq<char>>>)> {
    v.map_values(|r: SearchRoot| root_model(r))
}

/// A URL prefix, its roots in priority order, how they are searched, and the
/// largest file served (0: no limit).
#[derive(Debug)]
pub struct Location {
    pub prefix: String,
    pub roots: Vec<SearchRoot>,
    pub search_mode: SearchMode,
    pub max_file_size: u64,
}

impl Location {
    /// Builds a location from its configuration. `resolved[i]` is the canonical
    /// form of `loc.paths[i].root`, or `None` where it could not be resolved or
    /// is not a directory; such paths are left out.
    pub fn from_config(
        loc: &LocationConfig,
        server_max_file_size: u64,
        resolved: &Vec<Option<String>>,
    ) -> (r: Location)
        requires
            resolved@.len() == loc.paths@.len(),
        ensures
            r.prefix@ == normal_prefix(loc.prefix@),
            r.search_mode == loc.mode,
            r.max_file_size == match loc.max_file_size {
                Some(b) => b.0,
                None => server_max_file_size,
            },
            roots_view(r.roots@) == kept_roots(loc.paths@, resolved@),
    {
        let prefix = normalize_prefix(loc.prefix.as_str());
        let max_file_size = match loc.max_file_size {
            Some(b) => b.as_u64(),
            None => server_max_file_size,
        };
        let mut roots: Vec<SearchRoot> = Vec::new();
        let mut i: usize = 0;
        while i < loc.paths.len()
            invariant
                i <= loc.paths@.len() == resolved@.len(),
                roots_view(roots@) == kept_roots(loc.paths@.take(i as int), resolved@.take(i as int)),
            decreases loc.paths@.len() - i,
        {
            proof {
                let ps = loc.paths@.take(i + 1);
                assert(ps.drop_last() == loc.paths@.take(i as int));
                assert(resolved@.take(i + 1).take(i as int) == resolved@.take(i as int));
                assert(ps.last() == loc.paths@[i as int]);
                assert(resolved@.take(i + 1)[i as int] == resolved@[i as int]);
            }
            match &resolved[i] {
                Some(dir) => {
                    let ext_set = loc.paths[i].extension_set();
                    let ghost before = roots@;
                    roots.push(SearchRoot { path: dir.clone(), extensions: ext_set });
                    proof {
                        assert(roots_view(roots@) =~= roots_view(before).push(root_model(roots@.last())));
                    }
                },
                None => {},
            }
            i = i + 1;
        }
        proof {
            assert(loc.paths@.take(loc.paths@.len() as int) == loc.paths@);
            assert(resolved@.take(resolved@.len() as int) == resolved@);
        }
        Location { prefix, roots, search_mode: loc.mode, max_file_size }
    }
}

} // verus!

verus! {

/// The length in bytes of a location's prefix (as `str::len` gives it), which
/// orders the router.
pub open spec fn prefix_key(l: Location) -> nat {
    (vstd::utf8::encode_utf8(l.prefix@).len() as usize) as nat
}

/// Whether location `x` comes before location `y` in the router: longer prefix
/// first, and in declaration order among equal lengths.
pub open spec fn routes_before(keys: Seq<nat>, x: int, y: int) -> bool {
    keys[x] > keys[y] || (keys[x] == keys[y] && x < y)
}

/// `order` lists each of the indices `0..keys.len()` once, in router order.
pub open spec fn routing_order(keys: Seq<nat>, order: Seq<int>) -> bool {
    &&& order.len() == keys.len()
    &&& forall|k: int| 0 <= k < order.len() ==> 0 <= #[trigger] order[k] < keys.len()
    &&& forall|k: int, l: int| 0 <= k < l < order.len() ==> routes_before(keys, #[trigger] order[k], #[trigger] order[l])
}

pub open spec fn keys_of(locs: Seq<Location>) -> Seq<nat> {
    locs.map_values(|l: Location| prefix_key(l))
}

/// Two sequences of distinct indices with the same members, both in router order,
/// are equal.
proof fn lemma_sorted_unique(keys: Seq<nat>, a: Seq<int>, b: Seq<int>)
    requires
        forall|k: int, l: int| 0 <= k < l < a.len() ==> routes_before(keys, #[trigger] a[k], #[trigger] a[l]),
        forall|k: int, l: int| 0 <= k < l < b.len() ==> routes_before(keys, #[trigger] b[k], #[trigger] b[l]),
        forall|x: int| a.contains(x) <==> b.contains(x),
    ensures
        a == b,
    decreases a.len() + b.len(),
{
    if a.len() == 0 {
        if b.len() > 0 {
            assert(b.contains(b[0]));
        }
        assert(b =~= a);
    } else if b.len() == 0 {
        assert(a.contains(a[0]));
    } else {
        if a[0] != b[0] {
            assert(b.contains(a[0])) by {
                assert(a.contains(a[0]));
            }
            assert(a.contains(b[0])) by {
                assert(b.contains(b[0]));
            }
            let p = choose|p: int| 0 <= p < a.len() && a[p] == b[0];
            let q = choose|q: int| 0 <= q < b.len() && b[q] == a[0];
            assert(routes_before(keys, a[0], a[p]));
            assert(routes_before(keys, b[0], b[q]));
        }
        let ta = a.drop_first();
        let tb = b.drop_first();
        assert forall|x: int| ta.contains(x) <==> tb.contains(x) by {
            if ta.contains(x) {
                let p = choose|p: int| 0 <= p < ta.len() && ta[p] == x;
                assert(routes_before(keys, a[0], a[p + 1]));
                assert(a.contains(x));
                let q = choose|q: int| 0 <= q < b.len() && b[q] == x;
                assert(q != 0);
                assert(tb[q - 1] == x);
            }
            if tb.contains(x) {
                let q = choose|q: int| 0 <= q < tb.len() && tb[q] == x;
                assert(routes_before(keys, b[0], b[q + 1]));
                assert(b.contains(x));
                let p = choose|p: int| 0 <= p < a.len() && a[p] == x;
                assert(p != 0);
                assert(ta[p - 1] == x);
            }
        }
        assert forall|k: int, l: int| 0 <= k < l < ta.len() implies routes_before(keys, #[trigger] ta[k], #[trigger] ta[l]) by {
            assert(ta[k] == a[k + 1] && ta[l] == a[l + 1]);
        }
        assert forall|k: int, l: int| 0 <= k < l < tb.len() implies routes_before(keys, #[trigger] tb[k], #[trigger] tb[l]) by {
            assert(tb[k] == b[k + 1] && tb[l] == b[l + 1]);
        }
        lemma_sorted_unique(keys, ta, tb);
        assert(a =~= seq![a[0]] + ta);
        assert(b =~= seq![b[0]] + tb);
    }
}

/// The router's order is fixed by the locations alone: longest prefix first,
/// ties in declaration order. Any two orderings that list each location once and
/// keep that rule are the same, so identical input yields the identical router.
pub proof fn routing_order_is_unique(keys: Seq<nat>, a: Seq<int>, b: Seq<int>)
    requires
        routing_order(keys, a),
        routing_order(keys, b),
    ensures
        a == b,
{
    assert forall|x: int| a.contains(x) <==> b.contains(x) by {
        // Both list all of 0..n once: an index missing from one would leave it
        // with fewer than n distinct members.
        lemma_covers(keys, a, x);
        lemma_covers(keys, b, x);
    }
    lemma_sorted_unique(keys, a, b);
}

/// An ordering in router order holds every index of `0..keys.len()`.
proof fn lemma_covers(keys: Seq<nat>, o: Seq<int>, x: int)
    requires
        routing_order(keys, o),
    ensures
        o.contains(x) <==> 0 <= x < keys.len(),
{
    let n = keys.len();
    assert(o.no_duplicates()) by {
        assert forall|k: int, l: int| 0 <= k < o.len() && 0 <= l < o.len() && k != l implies o[k] != o[l] by {
            if k < l {
                assert(routes_before(keys, o[k], o[l]));
            } else {
                assert(routes_before(keys, o[l], o[k]));
            }
        }
    }
    if 0 <= x < n && !o.contains(x) {
        let s = o.to_set();
        let full = Set::new(|i: int| 0 <= i < n);
        assert(s.subset_of(full.remove(x)));
        vstd::set_lib::lemma_int_range(0, n as int);
        assert(full =~= vstd::set_lib::set_int_range(0, n as int));
        o.unique_seq_to_set();
        vstd::set_lib::lemma_len_subset(s, full.remove(x));
    }
}

} // verus!

verus! {

/// Where a request path goes in a location with prefix `prefix`: the rest of the
/// path past the prefix, or `None` where the location does not match. `/`
/// matches everything; any other prefix matches itself (rest `/`) and itself
/// followed by `/` (so `/img` does not match `/image/x`).
pub open spec fn prefix_match(prefix: Seq<char>, path: Seq<char>) -> Option<Seq<char>> {
    if prefix == seq!['/'] {
        Some(path)
    } else if path == prefix {
        Some(seq!['/'])
    } else if prefix.len() < path.len() && path.take(prefix.len() as int) == prefix
        && path[prefix.len() as int] == '/' {
        Some(path.skip(prefix.len() as int))
    } else {
        None
    }
}

/// The first location that matches, with the rest of the path.
pub open spec fn first_match(locs: Seq<Location>, path: Seq<char>) -> Option<(int, Seq<char>)>
    decreases locs.len(),
{
    if locs.len() == 0 {
        None
    } else {
        match first_match(locs.drop_last(), path) {
            Some(m) => Some(m),
            None => match prefix_match(locs.last().prefix@, path) {
                Some(rest) => Some((locs.len() - 1, rest)),
                None => None,
            },
        }
    }
}

/// The locations of a configuration and the request limits; resolves request
/// paths to files.
#[derive(Debug)]
pub struct FileSearcher {
    locations: Vec<Location>,
    max_body_size: u64,
    stream_buffer_size: usize,
}

/// Inserts `x` into `out` after every location whose prefix is at least as long.
fn insert_by_prefix(out: &mut Vec<Location>, x: Location) -> (pos: usize)
    requires
        forall|k: int, l: int| 0 <= k < l < old(out)@.len() ==> prefix_key(#[trigger] old(out)@[k]) >= prefix_key(#[trigger] old(out)@[l]),
    ensures
        pos <= old(out)@.len(),
        final(out)@ == old(out)@.insert(pos as int, x),
        forall|k: int| 0 <= k < pos ==> prefix_key(#[trigger] old(out)@[k]) >= prefix_key(x),
        forall|k: int| pos <= k < old(out)@.len() ==> prefix_key(#[trigger] old(out)@[k]) < prefix_key(x),
{
    let n = x.prefix.as_str().len();
    let mut j: usize = 0;
    while j < out.len() && out[j].prefix.as_str().len() >= n
        invariant
            j <= out@.len(),
            out@ == old(out)@,
            n == prefix_key(x),
            forall|k: int| 0 <= k < j ==> prefix_key(#[trigger] out@[k]) >= prefix_key(x),
        decreases out@.len() - j,
    {
        j = j + 1;
    }
    proof {
        if j < out@.len() {
            assert forall|k: int| j <= k < out@.len() implies prefix_key(#[trigger] out@[k]) < prefix_key(x) by {
                if k > j {
                    assert(prefix_key(out@[j as int]) >= prefix_key(out@[k]));
                }
            }
        }
    }
    out.insert(j, x);
    j
}

impl FileSearcher {
    /// The router's locations, longest prefix first.
    pub closed spec fn locations_view(&self) -> Seq<Location> {
        self.locations@
    }

    pub closed spec fn max_body_view(&self) -> u64 {
        self.max_body_size
    }

    pub closed spec fn stream_buffer_view(&self) -> usize {
        self.stream_buffer_size
    }

    /// A router over `locations`: they are ordered by prefix length, longest
    /// first, and in the given order among equal lengths.
    pub fn from_locations(locations: Vec<Location>, max_body_size: u64, stream_buffer_size: usize) -> (r: FileSearcher)
        ensures
            r.max_body_view() == max_body_size,
            r.stream_buffer_view() == stream_buffer_size,
            exists|order: Seq<int>|
                routing_order(keys_of(locations@), order) && r.locations_view() == order.map_values(
                    |i: int| locations@[i],
                ),
    {
        let ghost input = locations@;
        let ghost keys = keys_of(input);
        let total = locations.len();
        assert(total == input.len());
        let mut rest = locations;
        let mut out: Vec<Location> = Vec::new();
        let ghost mut order: Seq<int> = Seq::empty();
        let mut i: usize = 0;
        while rest.len() > 0
            invariant
                rest@ == input.skip(i as int),
                input.len() <= usize::MAX,
                i <= input.len(),
                keys == keys_of(input),
                order.len() == i,
                out@ == order.map_values(|k: int| input[k]),
                forall|k: int| 0 <= k < order.len() ==> 0 <= #[trigger] order[k] < i,
                forall|k: int, l: int| 0 <= k < l < order.len() ==> routes_before(keys, #[trigger] order[k], #[trigger] order[l]),
            decreases rest@.len(),
        {
            let x = rest.remove(0);
            proof {
                assert(x == input[i as int]);
                assert forall|k: int, l: int| 0 <= k < l < out@.len() implies prefix_key(#[trigger] out@[k]) >= prefix_key(#[trigger] out@[l]) by {
                    assert(routes_before(keys, order[k], order[l]));
                    assert(keys[order[k]] == prefix_key(out@[k]));
                    assert(keys[order[l]] == prefix_key(out@[l]));
                }
            }
            let ghost before = out@;
            let pos = insert_by_prefix(&mut out, x);
            proof {
                let old_order = order;
                order = order.insert(pos as int, i as int);
                assert(keys[i as int] == prefix_key(x));
                assert forall|k: int| 0 <= k < old_order.len() implies keys[#[trigger] old_order[k]] == prefix_key(before[k]) by {}
                assert forall|k: int, l: int| 0 <= k < l < order.len() implies routes_before(keys, #[trigger] order[k], #[trigger] order[l]) by {
                    if k < pos && l < pos {
                        assert(order[k] == old_order[k] && order[l] == old_order[l]);
                    } else if k < pos && l == pos {
                        assert(order[k] == old_order[k]);
                    } else if k < pos {
                        assert(order[k] == old_order[k] && order[l] == old_order[l - 1]);
                    } else if k == pos {
                        assert(order[l] == old_order[l - 1]);
                    } else {
                        assert(order[k] == old_order[k - 1] && order[l] == old_order[l - 1]);
                    }
                }
                assert(out@ =~= order.map_values(|k: int| input[k]));
                assert(rest@ =~= input.skip(i + 1));
            }
            i = i + 1;
        }
        proof {
            assert(i == input.len());
            assert(routing_order(keys_of(locations@), order));
            assert(out@ =~= order.map_values(|i: int| locations@[i]));
        }
        FileSearcher { locations: out, max_body_size, stream_buffer_size }
    }

    /// Largest `Content-Length` a request may carry.
    pub fn max_body_size(&self) -> (r: u64)
        ensures
            r == self.max_body_view(),
    {
        self.max_body_size
    }

    /// Chunk size for streamed bodies.
    pub fn stream_buffer_size(&self) -> (r: usize)
        ensures
            r == self.stream_buffer_view(),
    {
        self.stream_buffer_size
    }

    /// The locations, longest prefix first.
    pub fn locations(&self) -> (r: &Vec<Location>)
        ensures
            r@ == self.locations_view(),
    {
        &self.locations
    }
}

} // verus!

verus! {

/// Whether `p` begins with `q`.
fn starts_with_chars(p: &Vec<char>, q: &Vec<char>) -> (r: bool)
    ensures
        r == (q@.len() <= p@.len() && p@.take(q@.len() as int) == q@),
{
    if q.len() > p.len() {
        return false;
    }
    let mut i: usize = 0;
    while i < q.len()
        invariant
            q@.len() <= p@.len(),
            i <= q@.len(),
            forall|k: int| 0 <= k < i ==> p@[k] == q@[k],
        decreases q@.len() - i,
    {
        if p[i] != q[i] {
            proof {
                assert(p@.take(q@.len() as int)[i as int] == p@[i as int]);
            }
            return false;
        }
        i = i + 1;
    }
    proof {
        assert(p@.take(q@.len() as int) =~= q@);
    }
    true
}

/// The rest of `path` in a location with prefix `prefix`, or `None`.
fn match_prefix(prefix: &str, path: &Vec<char>) -> (r: Option<String>)
    ensures
        match prefix_match(prefix@, path@) {
            Some(rest) => r matches Some(s) && s@ == rest,
            None => r is None,
        },
{
    let q = crate::text::chars_of(prefix);
    let root = q.len() == 1 && q[0] == '/';
    proof {
        if q@ == seq!['/'] {
            assert(q@[0] == '/');
        }
        if root {
            assert(q@ =~= seq!['/']);
        }
    }
    if root {
        return Some(crate::text::string_of(path));
    }
    if crate::text::chars_eq(path, &q) {
        return Some(crate::text::string_of(&['/']));
    }
    if q.len() < path.len() && starts_with_chars(path, &q) && path[q.len()] == '/' {
        proof {
            assert(path@.subrange(q@.len() as int, path@.len() as int) == path@.skip(q@.len() as int));
        }
        return Some(crate::text::string_of(&crate::text::sub_chars(path, q.len(), path.len())));
    }
    None
}

impl FileSearcher {
    /// The location that serves `path` (the first match, longest prefix first)
    /// and the rest of the path within it.
    pub fn match_location<'a>(&'a self, path: &str) -> (r: Option<(&'a Location, String)>)
        ensures
            match first_match(self.locations_view(), path@) {
                None => r is None,
                Some((k, rest)) => r matches Some((l, s)) && *l == self.locations_view()[k] && s@ == rest,
            },
    {
        let p = crate::text::chars_of(path);
        let mut i: usize = 0;
        while i < self.locations.len()
            invariant
                i <= self.locations@.len(),
                p@ == path@,
                first_match(self.locations@.take(i as int), path@) is None,
            decreases self.locations@.len() - i,
        {
            let loc = &self.locations[i];
            proof {
                let t = self.locations@.take(i + 1);
                assert(t.drop_last() == self.locations@.take(i as int));
                assert(t.last() == self.locations@[i as int]);
            }
            match match_prefix(loc.prefix.as_str(), &p) {
                Some(rest) => {
                    proof {
                        lemma_first_match_stays(self.locations@, path@, i as int + 1);
                    }
                    return Some((loc, rest));
                },
                None => {},
            }
            i = i + 1;
        }
        proof {
            assert(self.locations@.take(self.locations@.len() as int) == self.locations@);
        }
        None
    }
}

proof fn lemma_first_match_stays(locs: Seq<Location>, path: Seq<char>, i: int)
    requires
        0 <= i <= locs.len(),
        first_match(locs.take(i), path) is Some,
    ensures
        first_match(locs, path) == first_match(locs.take(i), path),
    decreases locs.len() - i,
{
    if i < locs.len() {
        assert(locs.take(i + 1).drop_last() == locs.take(i));
        lemma_first_match_stays(locs, path, i + 1);
    } else {
        assert(locs.take(i) == locs);
    }
}

} // verus!

verus! {

/// `l` is what `Location::from_config` builds from `c`.
pub open spec fn built_from(l: Location, c: LocationConfig, server_max_file_size: u64, resolved: Seq<Option<String>>) -> bool {
    &&& l.prefix@ == normal_prefix(c.prefix@)
    &&& l.search_mode == c.mode
    &&& l.max_file_size == match c.max_file_size {
        Some(b) => b.0,
        None => server_max_file_size,
    }
    &&& roots_view(l.roots@) == kept_roots(c.paths@, resolved)
}

impl FileSearcher {
    /// Builds the router for a configuration. `resolved[i][j]` is the canonical
    /// directory of path `j` of location `i`, or `None` where it did not resolve
    /// to a directory.
    pub fn new(config: &crate::config::Config, resolved: &Vec<Vec<Option<String>>>) -> (r: FileSearcher)
        requires
            resolved@.len() == config.locations@.len(),
            forall|i: int| 0 <= i < resolved@.len() ==> (#[trigger] resolved@[i])@.len() == config.locations@[i].paths@.len(),
        ensures
            r.max_body_view() == config.server.max_body_size.0,
            r.stream_buffer_view() == config.server.stream_buffer_size.0 as usize,
            exists|built: Seq<Location>, order: Seq<int>|
                {
                    &&& built.len() == config.locations@.len()
                    &&& forall|i: int| 0 <= i < built.len() ==> built_from(#[trigger] built[i], config.locations@[i], config.server.max_file_size.0, resolved@[i]@)
                    &&& routing_order(keys_of(built), order)
                    &&& r.locations_view() == order.map_values(|i: int| built[i])
                },
    {
        let server_max_file_size = config.server.max_file_size.as_u64();
        let mut built: Vec<Location> = Vec::new();
        let mut i: usize = 0;
        while i < config.locations.len()
            invariant
                i <= config.locations@.len() == resolved@.len(),
                server_max_file_size == config.server.max_file_size.0,
                forall|k: int| 0 <= k < resolved@.len() ==> (#[trigger] resolved@[k])@.len() == config.locations@[k].paths@.len(),
                built@.len() == i,
                forall|k: int| 0 <= k < i ==> built_from(#[trigger] built@[k], config.locations@[k], server_max_file_size, resolved@[k]@),
            decreases config.locations@.len() - i,
        {
            let loc = Location::from_config(&config.locations[i], server_max_file_size, &resolved[i]);
            built.push(loc);
            i = i + 1;
        }
        let ghost b = built@;
        let r = FileSearcher::from_locations(
            built,
            config.server.max_body_size.as_u64(),
            config.server.stream_buffer_size.as_usize(),
        );
        proof {
            let order = choose|order: Seq<int>| routing_order(keys_of(b), order) && r.locations_view() == order.map_values(|i: int| b[i]);
            assert(b.len() == config.locations@.len());
        }
        r
    }
}

} // verus!

verus! {

/// What the file system reports of an opened file. `modified` is in nanoseconds
/// from the Unix epoch (the epoch itself where the time is not available).
#[derive(Clone, Copy, Debug)]
pub struct FileFacts {
    pub is_file: bool,
    pub len: u64,
    pub modified: i128,
}

/// One root to try for a request: the directory and the candidate file in it.
#[derive(Debug)]
pub struct Probe {
    pub root_index: usize,
    pub root: String,
    pub candidate: String,
    pub max_file_size: u64,
}

/// A probe as plain values.
pub open spec fn probe_view(p: Probe) -> (int, Seq<char>, Seq<char>, u64) {
    (p.root_index as int, p.root@, p.candidate@, p.max_file_size)
}

pub open spec fn probes_view(v: Seq<Probe>) -> Seq<(int, Seq<char>, Seq<char>, u64)> {
    v.map_values(|p: Probe| probe_view(p))
}

/// A resolved candidate that lies inside its root, still to be opened.
pub struct OpenFile {
    root_index: usize,
    root: String,
    path: String,
    max_file_size: u64,
}

/// A file found under a root: its canonical path lies inside the root and its
/// size is within the limit.
pub struct Hit {
    root_index: usize,
    root: String,
    path: String,
    len: u64,
    modified: i128,
    max_file_size: u64,
}

/// How probing one root ended.
pub enum ProbeOutcome {
    Hit(Hit),
    /// Nothing servable there: keep searching.
    Miss,
    /// The candidate resolved outside its root.
    Escaped,
}

/// The next step of a probe once its candidate has been resolved.
pub enum Resolved {
    Done(ProbeOutcome),
    Open(OpenFile),
}

impl OpenFile {
    #[verifier::type_invariant]
    closed spec fn inside(&self) -> bool {
        path_starts_with(self.path@, self.root@)
    }

    pub closed spec fn spec_root_index(&self) -> usize {
        self.root_index
    }

    pub closed spec fn spec_root(&self) -> Seq<char> {
        self.root@
    }

    pub closed spec fn spec_path(&self) -> Seq<char> {
        self.path@
    }

    pub closed spec fn spec_max(&self) -> u64 {
        self.max_file_size
    }

    /// The canonical path to open.
    pub fn path(&self) -> (r: &String)
        ensures
            r@ == self.spec_path(),
            path_starts_with(r@, self.spec_root()),
    {
        proof {
            use_type_invariant(self);
        }
        &self.path
    }

    /// Judges the opened file from what its handle reports (`None`: it could not
    /// be opened or read): a regular file within the size limit (0: none) is a hit.
    pub fn finish(self, facts: Option<FileFacts>) -> (r: ProbeOutcome)
        ensures
            match facts {
                None => r is Miss,
                Some(f) => if !f.is_file || (self.spec_max() > 0 && f.len > self.spec_max()) {
                    r is Miss
                } else {
                    r matches ProbeOutcome::Hit(h) && h.spec_root_index() == self.spec_root_index()
                        && h.spec_root() == self.spec_root() && h.spec_path() == self.spec_path()
                        && h.spec_len() == f.len && h.spec_modified() == f.modified
                        && h.spec_max() == self.spec_max()
                },
            },
    {
        proof {
            use_type_invariant(&self);
        }
        match facts {
            None => ProbeOutcome::Miss,
            Some(f) => {
                if !f.is_file || (self.max_file_size > 0 && f.len > self.max_file_size) {
                    ProbeOutcome::Miss
                } else {
                    ProbeOutcome::Hit(
                        Hit {
                            root_index: self.root_index,
                            root: self.root,
                            path: self.path,
                            len: f.len,
                            modified: f.modified,
                            max_file_size: self.max_file_size,
                        },
                    )
                }
            },
        }
    }
}

impl Hit {
    #[verifier::type_invariant]
    closed spec fn sound(&self) -> bool {
        &&& path_starts_with(self.path@, self.root@)
        &&& (self.max_file_size == 0 || self.len <= self.max_file_size)
    }

    pub closed spec fn spec_root_index(&self) -> usize {
        self.root_index
    }

    pub closed spec fn spec_root(&self) -> Seq<char> {
        self.root@
    }

    pub closed spec fn spec_path(&self) -> Seq<char> {
        self.path@
    }

    pub closed spec fn spec_len(&self) -> u64 {
        self.len
    }

    pub closed spec fn spec_modified(&self) -> i128 {
        self.modified
    }

    pub closed spec fn spec_max(&self) -> u64 {
        self.max_file_size
    }

    /// Which root of the location it was found under.
    pub fn root_index(&self) -> (r: usize)
        ensures
            r == self.spec_root_index(),
    {
        self.root_index
    }

    /// The canonical directory of that root.
    pub fn root(&self) -> (r: &String)
        ensures
            r@ == self.spec_root(),
    {
        &self.root
    }

    /// The canonical path of the file; it lies inside the root.
    pub fn path(&self) -> (r: &String)
        ensures
            r@ == self.spec_path(),
            path_starts_with(r@, self.spec_root()),
    {
        proof {
            use_type_invariant(self);
        }
        &self.path
    }

    /// The size in bytes, as the open handle reported it; within the limit.
    pub fn len(&self) -> (r: u64)
        ensures
            r == self.spec_len(),
            self.spec_max() == 0 || r <= self.spec_max(),
    {
        proof {
            use_type_invariant(self);
        }
        self.len
    }

    /// Modification time, nanoseconds from the Unix epoch.
    pub fn modified(&self) -> (r: i128)
        ensures
            r == self.spec_modified(),
    {
        self.modified
    }
}

impl Probe {
    /// Judges the canonical form of the candidate (`None`: it could not be
    /// resolved): outside the root, the search is told; inside, the file is to be
    /// opened.
    pub fn resolve(self, canonical: Option<String>) -> (r: Resolved)
        ensures
            match canonical {
                None => r matches Resolved::Done(ProbeOutcome::Miss),
                Some(c) => if path_starts_with(c@, self.root@) {
                    r matches Resolved::Open(o) && o.spec_path() == c@ && o.spec_root() == self.root@
                        && o.spec_root_index() == self.root_index && o.spec_max() == self.max_file_size
                } else {
                    r matches Resolved::Done(ProbeOutcome::Escaped)
                },
            },
    {
        match canonical {
            None => Resolved::Done(ProbeOutcome::Miss),
            Some(c) => {
                if crate::path::path_within(c.as_str(), self.root.as_str()) {
                    Resolved::Open(
                        OpenFile {
                            root_index: self.root_index,
                            root: self.root,
                            path: c,
                            max_file_size: self.max_file_size,
                        },
                    )
                } else {
                    Resolved::Done(ProbeOutcome::Escaped)
                }
            },
        }
    }
}

} // verus!

verus! {

/// Where a search stands after the outcomes `fed`, in the order they came: whether
/// it is decided, and the hit chosen so far.
/// - Sequential: the first hit wins; an escape ends the search with nothing.
/// - Concurrent: the first hit to arrive wins; an escape counts as a miss.
/// - Latest modified: the newest hit wins, the earliest among equals; an escape
///   ends the search with nothing.
pub open spec fn verdict(mode: SearchMode, fed: Seq<ProbeOutcome>) -> (bool, Option<Hit>)
    decreases fed.len(),
{
    if fed.len() == 0 {
        (false, None)
    } else {
        let prev = verdict(mode, fed.drop_last());
        if prev.0 {
            prev
        } else {
            match fed.last() {
                ProbeOutcome::Hit(h) => if mode == SearchMode::LatestModified {
                    if prev.1 matches Some(b) && h.spec_modified() <= b.spec_modified() {
                        prev
                    } else {
                        (false, Some(h))
                    }
                } else {
                    (true, Some(h))
                },
                ProbeOutcome::Escaped => if mode == SearchMode::Concurrent {
                    prev
                } else {
                    (true, None)
                },
                ProbeOutcome::Miss => prev,
            }
        }
    }
}

/// What a search returns after the outcomes `fed`.
pub open spec fn search_result(mode: SearchMode, fed: Seq<ProbeOutcome>) -> Option<Hit> {
    verdict(mode, fed).1
}

/// The search of one request in one location. The caller performs the probes
/// that `next_probe` hands out and reports each outcome with `record`, in the
/// order they complete; `finish` gives the file to serve.
pub struct Search {
    mode: SearchMode,
    probes: Vec<Probe>,
    next: usize,
    decided: bool,
    best: Option<Hit>,
    fed: Ghost<Seq<ProbeOutcome>>,
}

/// The roots of a location that take extension `ext`, as probes for the relative
/// path `rel`.
pub open spec fn eligible(
    roots: Seq<(Seq<char>, Option<Set<Seq<char>>>)>,
    rel: Seq<char>,
    ext: Seq<char>,
    max: u64,
) -> Seq<(int, Seq<char>, Seq<char>, u64)>
    decreases roots.len(),
{
    if roots.len() == 0 {
        Seq::empty()
    } else {
        let prev = eligible(roots.drop_last(), rel, ext, max);
        let r = roots.last();
        if allows(r.1, ext) {
            prev.push((roots.len() - 1, r.0, crate::path::joined_path(r.0, rel), max))
        } else {
            prev
        }
    }
}

/// The probes a location makes for a request path: none where the path is
/// refused, else one per root that takes the file's extension, in root order.
pub open spec fn planned(loc: Location, raw: Seq<char>) -> Seq<(int, Seq<char>, Seq<char>, u64)> {
    match crate::path::sanitized_url(raw) {
        None => Seq::empty(),
        Some(parts) => eligible(
            roots_view(loc.roots@),
            crate::path::joined(parts),
            crate::path::file_extension(parts.last()),
            loc.max_file_size,
        ),
    }
}

impl Search {
    #[verifier::type_invariant]
    closed spec fn consistent(&self) -> bool {
        &&& self.next <= self.probes@.len()
        &&& verdict(self.mode, self.fed@) == (self.decided, self.best)
    }

    pub closed spec fn spec_mode(&self) -> SearchMode {
        self.mode
    }

    pub closed spec fn spec_probes(&self) -> Seq<Probe> {
        self.probes@
    }

    pub closed spec fn spec_next(&self) -> usize {
        self.next
    }

    /// The outcomes recorded so far, in order.
    pub closed spec fn spec_fed(&self) -> Seq<ProbeOutcome> {
        self.fed@
    }

    fn idle(mode: SearchMode, probes: Vec<Probe>) -> (r: Search)
        ensures
            r.spec_mode() == mode,
            r.spec_probes() == probes@,
            r.spec_next() == 0,
            r.spec_fed() == Seq::<ProbeOutcome>::empty(),
    {
        Search { mode, probes, next: 0, decided: false, best: None, fed: Ghost(Seq::empty()) }
    }

    /// How the roots are searched.
    pub fn mode(&self) -> (r: SearchMode)
        ensures
            r == self.spec_mode(),
    {
        self.mode
    }

    /// The next root to probe, or `None` once the search is decided or every
    /// eligible root has been handed out.
    pub fn next_probe(&mut self) -> (r: Option<Probe>)
        ensures
            final(self).spec_mode() == old(self).spec_mode(),
            final(self).spec_probes() == old(self).spec_probes(),
            final(self).spec_fed() == old(self).spec_fed(),
            if !verdict(old(self).spec_mode(), old(self).spec_fed()).0 && old(self).spec_next()
                < old(self).spec_probes().len() {
                &&& r matches Some(p) && probe_view(p) == probe_view(
                    old(self).spec_probes()[old(self).spec_next() as int],
                )
                &&& final(self).spec_next() == old(self).spec_next() + 1
            } else {
                r is None && final(self).spec_next() == old(self).spec_next()
            },
    {
        proof {
            use_type_invariant(&*self);
        }
        if self.decided || self.next >= self.probes.len() {
            return None;
        }
        let p = &self.probes[self.next];
        let copy = Probe {
            root_index: p.root_index,
            root: p.root.clone(),
            candidate: p.candidate.clone(),
            max_file_size: p.max_file_size,
        };
        self.next = self.next + 1;
        Some(copy)
    }

    /// Takes in the outcome of a probe; returns whether the search is decided
    /// (the remaining probes can be dropped).
    pub fn record(&mut self, outcome: ProbeOutcome) -> (decided: bool)
        ensures
            final(self).spec_mode() == old(self).spec_mode(),
            final(self).spec_probes() == old(self).spec_probes(),
            final(self).spec_next() == old(self).spec_next(),
            final(self).spec_fed() == old(self).spec_fed().push(outcome),
            decided == verdict(final(self).spec_mode(), final(self).spec_fed()).0,
    {
        let mut cur = Search::idle(self.mode, Vec::new());
        std::mem::swap(self, &mut cur);
        proof {
            use_type_invariant(&cur);
        }
        let Search { mode, probes, next, decided, best, fed } = cur;
        let ghost fed2 = fed@.push(outcome);
        proof {
            assert(fed2.drop_last() =~= fed@);
            assert(fed2.last() == outcome);
        }
        let (now_decided, now_best): (bool, Option<Hit>) = if decided {
            (decided, best)
        } else {
            match outcome {
                ProbeOutcome::Hit(h) => {
                    if mode == SearchMode::LatestModified {
                        let newer = match &best {
                            Some(b) => h.modified > b.modified,
                            None => true,
                        };
                        if newer {
                            (false, Some(h))
                        } else {
                            (false, best)
                        }
                    } else {
                        (true, Some(h))
                    }
                },
                ProbeOutcome::Escaped => {
                    if mode == SearchMode::Concurrent {
                        (false, best)
                    } else {
                        (true, None)
                    }
                },
                ProbeOutcome::Miss => (false, best),
            }
        };
        *self = Search { mode, probes, next, decided: now_decided, best: now_best, fed: Ghost(fed2) };
        now_decided
    }

    /// The file to serve, if any: the hit that the search mode picks from the
    /// outcomes recorded. Its path lies inside its root.
    pub fn finish(self) -> (r: Option<Hit>)
        ensures
            r == search_result(self.spec_mode(), self.spec_fed()),
            r matches Some(h) ==> path_starts_with(h.spec_path(), h.spec_root()) && (h.spec_max() == 0
                || h.spec_len() <= h.spec_max()),
    {
        proof {
            use_type_invariant(&self);
        }
        let Search { mode, probes, next, decided, best, fed } = self;
        match best {
            Some(h) => {
                proof {
                    use_type_invariant(&h);
                }
                Some(h)
            },
            None => None,
        }
    }
}

} // verus!

verus! {

impl Location {
    /// Starts the search for `request_path` (the path past the prefix): the path
    /// is sanitized, then every root that takes the file's extension gets a probe
    /// for the file under it, in root order. A refused path gets no probes.
    pub fn start(&self, request_path: &str) -> (r: Search)
        ensures
            r.spec_mode() == self.search_mode,
            probes_view(r.spec_probes()) == planned(*self, request_path@),
            r.spec_next() == 0,
            r.spec_fed() == Seq::<ProbeOutcome>::empty(),
    {
        let parts = match crate::path::sanitize_parts(request_path) {
            None => {
                let r = Search::idle(self.search_mode, Vec::new());
                proof {
                    assert(probes_view(r.spec_probes()) =~= Seq::empty());
                }
                return r;
            },
            Some(p) => p,
        };
        let ghost pv = crate::path::parts_view(parts@);
        let rel = crate::path::join_parts(&parts);
        let last = &parts[parts.len() - 1];
        proof {
            assert(pv.last() == last@);
        }
        let ext_chars = crate::path::extension_of(last);
        let ext = crate::text::string_of(&ext_chars);
        let mut probes: Vec<Probe> = Vec::new();
        let mut i: usize = 0;
        while i < self.roots.len()
            invariant
                i <= self.roots@.len(),
                probes_view(probes@) == eligible(roots_view(self.roots@.take(i as int)), rel@, ext@, self.max_file_size),
            decreases self.roots@.len() - i,
        {
            let root = &self.roots[i];
            proof {
                let t = roots_view(self.roots@.take(i + 1));
                assert(t.drop_last() =~= roots_view(self.roots@.take(i as int)));
                assert(t.last() == root_model(self.roots@[i as int]));
            }
            if root.accepts(ext.as_str()) {
                let candidate = crate::path::join_path(root.path.as_str(), rel.as_str());
                let ghost before = probes@;
                probes.push(Probe { root_index: i, root: root.path.clone(), candidate, max_file_size: self.max_file_size });
                proof {
                    assert(probes_view(probes@) =~= probes_view(before).push(probe_view(probes@.last())));
                }
            }
            i = i + 1;
        }
        proof {
            assert(self.roots@.take(self.roots@.len() as int) == self.roots@);
        }
        Search::idle(self.search_mode, probes)
    }
}

impl FileSearcher {
    /// Starts the search for a request path: the location that matches it
    /// searches the rest of the path; with no match there is nothing to probe.
    pub fn start(&self, path: &str) -> (r: Search)
        ensures
            r.spec_next() == 0,
            r.spec_fed() == Seq::<ProbeOutcome>::empty(),
            match first_match(self.locations_view(), path@) {
                None => r.spec_probes().len() == 0,
                Some((k, rest)) => {
                    let l = self.locations_view()[k];
                    r.spec_mode() == l.search_mode && probes_view(r.spec_probes()) == planned(l, rest)
                },
            },
    {
        match self.match_location(path) {
            None => Search::idle(SearchMode::Sequential, Vec::new()),
            Some((loc, rest)) => loc.start(rest.as_str()),
        }
    }
}

} // verus!

verus! {

proof fn lemma_all_miss(mode: SearchMode, fed: Seq<ProbeOutcome>)
    requires
        forall|i: int| 0 <= i < fed.len() ==> (#[trigger] fed[i]) is Miss,
    ensures
        verdict(mode, fed) == (false, None::<Hit>),
    decreases fed.len(),
{
    if fed.len() > 0 {
        lemma_all_miss(mode, fed.drop_last());
        assert(fed[fed.len() - 1] is Miss);
    }
}

/// In a sequential search where every root but root `k` misses, the search
/// returns exactly what root `k`'s probe returned: its hit, or nothing.
pub proof fn sequential_returns_lone_outcome(fed: Seq<ProbeOutcome>, k: int)
    requires
        0 <= k < fed.len(),
        forall|i: int| 0 <= i < fed.len() && i != k ==> (#[trigger] fed[i]) is Miss,
    ensures
        search_result(SearchMode::Sequential, fed) == match fed[k] {
            ProbeOutcome::Hit(h) => Some(h),
            _ => None,
        },
    decreases fed.len(),
{
    let prev = fed.drop_last();
    if k == fed.len() - 1 {
        assert forall|i: int| 0 <= i < prev.len() implies (#[trigger] prev[i]) is Miss by {
            assert(prev[i] == fed[i]);
        }
        lemma_all_miss(SearchMode::Sequential, prev);
    } else {
        assert forall|i: int| 0 <= i < prev.len() && i != k implies (#[trigger] prev[i]) is Miss by {
            assert(prev[i] == fed[i]);
        }
        sequential_returns_lone_outcome(prev, k);
        assert(fed[fed.len() - 1] is Miss);
        assert(prev[k] == fed[k]);
    }
}

/// Root `k`'s hit is the newest among the hits of `fed`, and strictly newer than
/// those of earlier roots.
pub open spec fn newest_at(fed: Seq<ProbeOutcome>, k: int) -> bool {
    &&& 0 <= k < fed.len()
    &&& fed[k] is Hit
    &&& forall|j: int| 0 <= j < fed.len() && (#[trigger] fed[j]) is Hit
        ==> fed[j]->Hit_0.spec_modified() <= fed[k]->Hit_0.spec_modified()
    &&& forall|j: int| 0 <= j < k && (#[trigger] fed[j]) is Hit
        ==> fed[j]->Hit_0.spec_modified() < fed[k]->Hit_0.spec_modified()
}

/// A latest-modified search without escapes returns the newest hit, and among
/// hits equally new the one of the earliest root; with no hit it returns nothing.
pub proof fn latest_modified_returns_newest(fed: Seq<ProbeOutcome>)
    requires
        forall|i: int| 0 <= i < fed.len() ==> !((#[trigger] fed[i]) is Escaped),
    ensures
        !verdict(SearchMode::LatestModified, fed).0,
        (forall|i: int| 0 <= i < fed.len() ==> !((#[trigger] fed[i]) is Hit))
            ==> search_result(SearchMode::LatestModified, fed) is None,
        (exists|i: int| 0 <= i < fed.len() && (#[trigger] fed[i]) is Hit) ==> exists|k: int|
            newest_at(fed, k) && search_result(SearchMode::LatestModified, fed) == Some(
                #[trigger] fed[k]->Hit_0,
            ),
    decreases fed.len(),
{
    let mode = SearchMode::LatestModified;
    if fed.len() == 0 {
        return;
    }
    let prev = fed.drop_last();
    let n = fed.len() - 1;
    assert forall|i: int| 0 <= i < prev.len() implies #[trigger] prev[i] == fed[i] by {}
    latest_modified_returns_newest(prev);
    let pv = verdict(mode, prev);
    assert(!(fed[n] is Escaped));
    if fed[n] is Miss {
        if exists|i: int| 0 <= i < fed.len() && (#[trigger] fed[i]) is Hit {
            let i = choose|i: int| 0 <= i < fed.len() && (#[trigger] fed[i]) is Hit;
            assert(prev[i] is Hit);
            let k = choose|k: int| newest_at(prev, k) && search_result(mode, prev) == Some(#[trigger] prev[k]->Hit_0);
            assert(fed[k] == prev[k]);
            assert forall|j: int| 0 <= j < fed.len() && (#[trigger] fed[j]) is Hit
                implies fed[j]->Hit_0.spec_modified() <= fed[k]->Hit_0.spec_modified() by {
                assert(j < n);
                assert(prev[j] is Hit);
            }
            assert forall|j: int| 0 <= j < k && (#[trigger] fed[j]) is Hit
                implies fed[j]->Hit_0.spec_modified() < fed[k]->Hit_0.spec_modified() by {
                assert(prev[j] is Hit);
            }
            assert(newest_at(fed, k));
        }
        if forall|i: int| 0 <= i < fed.len() ==> !((#[trigger] fed[i]) is Hit) {
            assert forall|i: int| 0 <= i < prev.len() implies !((#[trigger] prev[i]) is Hit) by {
                assert(fed[i] == prev[i]);
            }
        }
    } else {
        let h = fed[n]->Hit_0;
        if pv.1 is Some && h.spec_modified() <= pv.1->0.spec_modified() {
            assert(exists|i: int| 0 <= i < prev.len() && (#[trigger] prev[i]) is Hit);
            let k = choose|k: int| newest_at(prev, k) && search_result(mode, prev) == Some(#[trigger] prev[k]->Hit_0);
            assert(fed[k] == prev[k]);
            assert forall|j: int| 0 <= j < fed.len() && (#[trigger] fed[j]) is Hit
                implies fed[j]->Hit_0.spec_modified() <= fed[k]->Hit_0.spec_modified() by {
                if j < n {
                    assert(prev[j] is Hit);
                }
            }
            assert forall|j: int| 0 <= j < k && (#[trigger] fed[j]) is Hit
                implies fed[j]->Hit_0.spec_modified() < fed[k]->Hit_0.spec_modified() by {
                assert(prev[j] is Hit);
            }
            assert(newest_at(fed, k));
        } else {
            assert forall|j: int| 0 <= j < fed.len() && (#[trigger] fed[j]) is Hit
                implies fed[j]->Hit_0.spec_modified() <= h.spec_modified() by {
                if j < n {
                    assert(prev[j] is Hit);
                    let k = choose|k: int| newest_at(prev, k) && search_result(mode, prev) == Some(#[trigger] prev[k]->Hit_0);
                    assert(prev[j]->Hit_0.spec_modified() <= prev[k]->Hit_0.spec_modified());
                }
            }
            assert forall|j: int| 0 <= j < n && (#[trigger] fed[j]) is Hit
                implies fed[j]->Hit_0.spec_modified() < h.spec_modified() by {
                assert(prev[j] is Hit);
                let k = choose|k: int| newest_at(prev, k) && search_result(mode, prev) == Some(#[trigger] prev[k]->Hit_0);
                assert(prev[j]->Hit_0.spec_modified() <= prev[k]->Hit_0.spec_modified());
            }
            assert(newest_at(fed, n));
        }
    }
}

} // verus!
