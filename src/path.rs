//! URL paths and file system paths: percent-decoding, Unix path components,
//! the sanitizer, extensions, joining and containment.

use vstd::prelude::*;
use vstd::utf8::{decode_utf8, encode_utf8, valid_utf8};

use crate::text::{chars_eq, chars_of, string_of};

verus! {

/// The value of an ASCII hexadecimal digit.
pub open spec fn hex_value(b: u8) -> Option<u8> {
    if 48 <= b && b <= 57 {
        Some((b - 48) as u8)
    } else if 97 <= b && b <= 102 {
        Some((b - 87) as u8)
    } else if 65 <= b && b <= 70 {
        Some((b - 55) as u8)
    } else {
        None
    }
}

/// Percent-decoding: each `%` followed by two hexadecimal digits stands for the
/// byte they spell; every other byte stands for itself.
pub open spec fn percent_decoded(b: Seq<u8>) -> Seq<u8>
    decreases b.len(),
{
    if b.len() == 0 {
        Seq::empty()
    } else if b[0] == 37 && b.len() >= 3 && hex_value(b[1]) is Some && hex_value(b[2]) is Some {
        seq![(hex_value(b[1])->0 * 16 + hex_value(b[2])->0) as u8] + percent_decoded(b.skip(3))
    } else {
        seq![b[0]] + percent_decoded(b.skip(1))
    }
}

/// The text that a percent-encoded URL path stands for, or `None` where the
/// decoded bytes are not UTF-8.
pub open spec fn url_decoded(raw: Seq<char>) -> Option<Seq<char>> {
    let b = percent_decoded(encode_utf8(raw));
    if valid_utf8(b) {
        Some(decode_utf8(b))
    } else {
        None
    }
}

/// Relies on `percent_encoding::percent_decode_str` and `PercentDecode::decode_utf8`:
/// the input's bytes are percent-decoded, then read as UTF-8, which fails where
/// they are not UTF-8.
#[verifier::external_body]
fn percent_decode_utf8(raw: &str) -> (r: Option<String>)
    ensures
        match url_decoded(raw@) {
            Some(d) => r matches Some(s) && s@ == d,
            None => r is None,
        },
{
    percent_encoding::percent_decode_str(raw).decode_utf8().ok().map(|c| c.into_owned())
}

/// One component of a path, as `std::path::Path::components` yields them on Unix.
pub enum Comp {
    RootDir,
    CurDir,
    ParentDir,
    Normal(Seq<char>),
}

/// The pieces of `s` between slashes (empty ones included).
pub open spec fn split_slash(s: Seq<char>) -> Seq<Seq<char>>
    decreases s.len(),
{
    if s.len() == 0 {
        seq![Seq::empty()]
    } else {
        let p = split_slash(s.drop_last());
        if s.last() == '/' {
            p.push(Seq::empty())
        } else {
            p.update(p.len() - 1, p.last().push(s.last()))
        }
    }
}

/// The component a piece stands for past the start: empty pieces and `.` vanish.
pub open spec fn piece_comp(x: Seq<char>) -> Option<Comp> {
    if x.len() == 0 || x == seq!['.'] {
        None
    } else if x == seq!['.', '.'] {
        Some(Comp::ParentDir)
    } else {
        Some(Comp::Normal(x))
    }
}

/// The components of the pieces of a path; a relative path that starts with `.`
/// keeps it as `CurDir`.
pub open spec fn pieces_comps(pieces: Seq<Seq<char>>, rooted: bool) -> Seq<Comp>
    decreases pieces.len(),
{
    if pieces.len() == 0 {
        Seq::empty()
    } else {
        let prev = pieces_comps(pieces.drop_last(), rooted);
        let x = pieces.last();
        if pieces.len() == 1 && !rooted && x == seq!['.'] {
            prev.push(Comp::CurDir)
        } else {
            match piece_comp(x) {
                Some(c) => prev.push(c),
                None => prev,
            }
        }
    }
}

pub open spec fn is_rooted(s: Seq<char>) -> bool {
    s.len() > 0 && s[0] == '/'
}

/// The components of a Unix path.
pub open spec fn components(s: Seq<char>) -> Seq<Comp> {
    (if is_rooted(s) {
        seq![Comp::RootDir]
    } else {
        Seq::empty()
    }) + pieces_comps(split_slash(s), is_rooted(s))
}

/// Executable form of a path component.
pub enum Component {
    RootDir,
    CurDir,
    ParentDir,
    Normal(Vec<char>),
}

impl View for Component {
    type V = Comp;

    open spec fn view(&self) -> Comp {
        match self {
            Component::RootDir => Comp::RootDir,
            Component::CurDir => Comp::CurDir,
            Component::ParentDir => Comp::ParentDir,
            Component::Normal(v) => Comp::Normal(v@),
        }
    }
}

pub open spec fn comps_view(v: Seq<Component>) -> Seq<Comp> {
    v.map_values(|c: Component| c@)
}

/// Adds the component that piece number `n` stands for.
fn push_piece(out: &mut Vec<Component>, piece: Vec<char>, n: usize, rooted: bool)
    ensures
        comps_view(final(out)@) == comps_view(old(out)@) + (if n == 0 && !rooted && piece@ == seq!['.'] {
            seq![Comp::CurDir]
        } else {
            match piece_comp(piece@) {
                Some(c) => seq![c],
                None => Seq::empty(),
            }
        }),
{
    let ghost before = out@;
    let is_dot = piece.len() == 1 && piece[0] == '.';
    let is_dot_dot = piece.len() == 2 && piece[0] == '.' && piece[1] == '.';
    proof {
        assert(is_dot == (piece@ == seq!['.'])) by {
            if piece@ == seq!['.'] {
                assert(piece@[0] == '.');
            }
            if is_dot {
                assert(piece@ =~= seq!['.']);
            }
        }
        assert(is_dot_dot == (piece@ == seq!['.', '.'])) by {
            if piece@ == seq!['.', '.'] {
                assert(piece@[0] == '.' && piece@[1] == '.');
            }
            if is_dot_dot {
                assert(piece@ =~= seq!['.', '.']);
            }
        }
    }
    if n == 0 && !rooted && is_dot {
        out.push(Component::CurDir);
    } else if piece.len() == 0 || is_dot {
    } else if is_dot_dot {
        out.push(Component::ParentDir);
    } else {
        out.push(Component::Normal(piece));
    }
    proof {
        assert(comps_view(out@) =~= comps_view(before) + (if n == 0 && !rooted && piece@ == seq!['.'] {
            seq![Comp::CurDir]
        } else {
            match piece_comp(piece@) {
                Some(c) => seq![c],
                None => Seq::empty(),
            }
        }));
    }
}

/// The components of the path `v`, as `std::path::Path::components` gives them
/// on Unix: a leading `RootDir`, a leading `CurDir` for a relative path that
/// starts with `.`, then `ParentDir` for `..` and `Normal` for every other name;
/// empty names and inner `.` are skipped.
pub fn components_of(v: &Vec<char>) -> (r: Vec<Component>)
    ensures
        comps_view(r@) == components(v@),
{
    let rooted = v.len() > 0 && v[0] == '/';
    let mut out: Vec<Component> = Vec::new();
    if rooted {
        out.push(Component::RootDir);
    }
    let ghost lead = comps_view(out@);
    let ghost mut done: Seq<Seq<char>> = Seq::empty();
    let mut n: usize = 0;
    let mut cur: Vec<char> = Vec::new();
    let mut i: usize = 0;
    proof {
        assert(v@.take(0) =~= Seq::<char>::empty());
        assert(done.push(cur@) =~= seq![Seq::<char>::empty()]);
    }
    while i < v.len()
        invariant
            i <= v@.len(),
            rooted == is_rooted(v@),
            lead == (if rooted { seq![Comp::RootDir] } else { Seq::<Comp>::empty() }),
            split_slash(v@.take(i as int)) == done.push(cur@),
            n == done.len(),
            n <= i,
            comps_view(out@) == lead + pieces_comps(done, rooted),
        decreases v@.len() - i,
    {
        let c = v[i];
        proof {
            assert(v@.take(i + 1).drop_last() == v@.take(i as int));
            assert(v@.take(i + 1).last() == c);
        }
        if c == '/' {
            let mut piece: Vec<char> = Vec::new();
            std::mem::swap(&mut piece, &mut cur);
            let ghost p = piece@;
            push_piece(&mut out, piece, n, rooted);
            proof {
                assert(done.push(p).drop_last() == done);
                assert(done.push(p).last() == p);
                done = done.push(p);
                assert(done.push(cur@) =~= split_slash(v@.take(i + 1)));
            }
            n = n + 1;
        } else {
            let ghost old_cur = cur@;
            cur.push(c);
            proof {
                assert(done.push(cur@) =~= done.push(old_cur).update(done.len() as int, old_cur.push(c)));
            }
        }
        i = i + 1;
    }
    let ghost last = cur@;
    push_piece(&mut out, cur, n, rooted);
    proof {
        assert(v@.take(v@.len() as int) == v@);
        let all = done.push(last);
        assert(all.drop_last() == done);
        assert(all.last() == last);
        assert(comps_view(out@) =~= lead + pieces_comps(all, rooted));
    }
    out
}

} // verus!

verus! {

/// A component that a served path may hold: the root, or a name that does not
/// start with a dot.
pub open spec fn plain_comp(c: Comp) -> bool {
    match c {
        Comp::RootDir => true,
        Comp::Normal(x) => x.len() > 0 && x[0] != '.',
        _ => false,
    }
}

/// The names among some components, in order.
pub open spec fn normal_names(cs: Seq<Comp>) -> Seq<Seq<char>>
    decreases cs.len(),
{
    if cs.len() == 0 {
        Seq::empty()
    } else {
        let p = normal_names(cs.drop_last());
        match cs.last() {
            Comp::Normal(x) => p.push(x),
            _ => p,
        }
    }
}

/// The names of the relative path that a decoded URL path maps to, or `None`
/// where it is refused: a NUL character, a `.` or `..` component, a name that
/// starts with a dot, or no name at all.
pub open spec fn sanitized(d: Seq<char>) -> Option<Seq<Seq<char>>> {
    let cs = components(d);
    if d.contains('\0') || exists|i: int| 0 <= i < cs.len() && !plain_comp(#[trigger] cs[i]) {
        None
    } else if normal_names(cs).len() == 0 {
        None
    } else {
        Some(normal_names(cs))
    }
}

/// The names of the relative path that a raw (percent-encoded) URL path maps
/// to, or `None` where it is refused.
pub open spec fn sanitized_url(raw: Seq<char>) -> Option<Seq<Seq<char>>> {
    match url_decoded(raw) {
        None => None,
        Some(d) => sanitized(d),
    }
}

/// Names joined by `/`.
pub open spec fn joined(parts: Seq<Seq<char>>) -> Seq<char>
    decreases parts.len(),
{
    if parts.len() == 0 {
        Seq::empty()
    } else if parts.len() == 1 {
        parts[0]
    } else {
        joined(parts.drop_last()) + seq!['/'] + parts.last()
    }
}

pub open spec fn parts_view(v: Seq<Vec<char>>) -> Seq<Seq<char>> {
    v.map_values(|p: Vec<char>| p@)
}

/// The names of the safe relative path for a raw URL path, or `None` where the
/// path is refused.
pub fn sanitize_parts(raw: &str) -> (r: Option<Vec<Vec<char>>>)
    ensures
        match sanitized_url(raw@) {
            None => r is None,
            Some(p) => r matches Some(v) && parts_view(v@) == p,
        },
{
    let decoded = match percent_decode_utf8(raw) {
        Some(d) => d,
        None => {
            return None;
        },
    };
    let d = chars_of(decoded.as_str());
    let mut k: usize = 0;
    while k < d.len()
        invariant
            k <= d@.len(),
            url_decoded(raw@) == Some(d@),
            forall|j: int| 0 <= j < k ==> d@[j] != '\0',
        decreases d@.len() - k,
    {
        if d[k] == '\0' {
            proof {
                assert(d@[k as int] == '\0');
                assert(d@.contains('\0'));
            }
            return None;
        }
        k = k + 1;
    }
    let comps = components_of(&d);
    let ghost cs = components(d@);
    let mut parts: Vec<Vec<char>> = Vec::new();
    let mut i: usize = 0;
    while i < comps.len()
        invariant
            i <= comps@.len(),
            cs == comps_view(comps@),
            cs == components(d@),
            url_decoded(raw@) == Some(d@),
            !d@.contains('\0'),
            forall|j: int| 0 <= j < i ==> plain_comp(#[trigger] cs[j]),
            parts_view(parts@) == normal_names(cs.take(i as int)),
        decreases comps@.len() - i,
    {
        proof {
            assert(cs.take(i + 1).drop_last() == cs.take(i as int));
            assert(cs.take(i + 1).last() == cs[i as int]);
            assert(cs[i as int] == comps@[i as int]@);
        }
        match &comps[i] {
            Component::RootDir => {},
            Component::Normal(x) => {
                if x.len() == 0 || x[0] == '.' {
                    proof {
                        assert(!plain_comp(cs[i as int]));
                    }
                    return None;
                }
                let copy = crate::text::sub_chars(x, 0, x.len());
                let ghost before = parts@;
                parts.push(copy);
                proof {
                    assert(x@.subrange(0, x@.len() as int) == x@);
                    assert(parts_view(parts@) =~= parts_view(before).push(x@));
                }
            },
            _ => {
                proof {
                    assert(!plain_comp(cs[i as int]));
                }
                return None;
            },
        }
        i = i + 1;
    }
    proof {
        assert(cs.take(cs.len() as int) == cs);
    }
    if parts.len() == 0 {
        return None;
    }
    Some(parts)
}

/// `parts` joined by `/`.
pub fn join_parts(parts: &Vec<Vec<char>>) -> (r: String)
    ensures
        r@ == joined(parts_view(parts@)),
{
    let mut s = String::new();
    let mut i: usize = 0;
    while i < parts.len()
        invariant
            i <= parts@.len(),
            s@ == joined(parts_view(parts@).take(i as int)),
        decreases parts@.len() - i,
    {
        proof {
            let t = parts_view(parts@).take(i + 1);
            assert(t.drop_last() == parts_view(parts@).take(i as int));
            assert(t.last() == parts@[i as int]@);
            if i == 0 {
                assert(t[0] == parts@[0]@);
            }
        }
        if i > 0 {
            crate::text::push_char(&mut s, '/');
        }
        crate::text::push_chars(&mut s, parts[i].as_slice());
        i = i + 1;
    }
    proof {
        assert(parts_view(parts@).take(parts@.len() as int) == parts_view(parts@));
    }
    s
}

/// Turns a raw URL path into a safe relative path (names joined by `/`): the
/// path is percent-decoded and must be UTF-8 without NUL; `.` and `..`
/// components, names that start with a dot (hidden files, `..` that came out of
/// decoding), and paths without a name are refused.
pub fn sanitize_path(raw: &str) -> (r: Option<String>)
    ensures
        match sanitized_url(raw@) {
            None => r is None,
            Some(p) => r matches Some(s) && s@ == joined(p),
        },
{
    match sanitize_parts(raw) {
        None => None,
        Some(parts) => Some(join_parts(&parts)),
    }
}

/// The index of the last dot in `name`, or -1.
pub open spec fn last_dot(name: Seq<char>) -> int
    decreases name.len(),
{
    if name.len() == 0 {
        -1
    } else if name.last() == '.' {
        name.len() - 1
    } else {
        last_dot(name.drop_last())
    }
}

/// The extension of a file name as `Path::extension` gives it (empty where it
/// gives none): what follows the last dot, unless that dot starts the name.
pub open spec fn file_extension(name: Seq<char>) -> Seq<char> {
    if name == seq!['.', '.'] || last_dot(name) <= 0 {
        Seq::empty()
    } else {
        name.skip(last_dot(name) + 1)
    }
}

proof fn lemma_last_dot(name: Seq<char>, k: int)
    requires
        -1 <= k < name.len(),
        k >= 0 ==> name[k] == '.',
        forall|j: int| k < j < name.len() ==> #[trigger] name[j] != '.',
    ensures
        last_dot(name) == k,
    decreases name.len(),
{
    if name.len() > 0 && k < name.len() - 1 {
        lemma_last_dot(name.drop_last(), k);
    }
}

/// The extension of a file name (empty where there is none).
pub fn extension_of(name: &Vec<char>) -> (r: Vec<char>)
    ensures
        r@ == file_extension(name@),
{
    let mut k: usize = name.len();
    while k > 0 && name[k - 1] != '.'
        invariant
            k <= name@.len(),
            forall|j: int| k <= j < name@.len() ==> #[trigger] name@[j] != '.',
        decreases k,
    {
        k = k - 1;
    }
    proof {
        lemma_last_dot(name@, k - 1);
    }
    let dot_dot = name.len() == 2 && name[0] == '.' && name[1] == '.';
    proof {
        if name@ == seq!['.', '.'] {
            assert(name@[0] == '.' && name@[1] == '.');
        }
        if dot_dot {
            assert(name@ =~= seq!['.', '.']);
        }
    }
    if dot_dot || k <= 1 {
        return Vec::new();
    }
    proof {
        assert(name@.subrange(k as int, name@.len() as int) == name@.skip(k as int));
    }
    crate::text::sub_chars(name, k, name.len())
}

/// `rel` appended to `base` as `PathBuf::push` does: a separator goes between
/// them unless `base` is empty or ends with one; an absolute `rel` replaces `base`.
pub open spec fn joined_path(base: Seq<char>, rel: Seq<char>) -> Seq<char> {
    if is_rooted(rel) {
        rel
    } else if base.len() > 0 && base.last() != '/' {
        base + seq!['/'] + rel
    } else {
        base + rel
    }
}

/// `rel` appended to the directory `base`.
pub fn join_path(base: &str, rel: &str) -> (r: String)
    ensures
        r@ == joined_path(base@, rel@),
{
    let b = chars_of(base);
    let r = chars_of(rel);
    if r.len() > 0 && r[0] == '/' {
        return string_of(&r);
    }
    let mut s = string_of(&b);
    if b.len() > 0 && b[b.len() - 1] != '/' {
        crate::text::push_char(&mut s, '/');
    }
    crate::text::push_chars(&mut s, &r);
    s
}

/// Whether the components of `base` begin those of `p`, as `Path::starts_with`
/// decides it.
pub open spec fn path_starts_with(p: Seq<char>, base: Seq<char>) -> bool {
    let a = components(p);
    let b = components(base);
    b.len() <= a.len() && a.take(b.len() as int) == b
}

fn comp_eq(x: &Component, y: &Component) -> (r: bool)
    ensures
        r == (x@ == y@),
{
    match (x, y) {
        (Component::RootDir, Component::RootDir) => true,
        (Component::CurDir, Component::CurDir) => true,
        (Component::ParentDir, Component::ParentDir) => true,
        (Component::Normal(a), Component::Normal(b)) => chars_eq(a, b),
        _ => false,
    }
}

/// Whether the path `p` lies at or below `base`, component by component (so
/// `/a/bc` is not below `/a/b`).
pub fn path_within(p: &str, base: &str) -> (r: bool)
    ensures
        r == path_starts_with(p@, base@),
{
    let a = components_of(&chars_of(p));
    let b = components_of(&chars_of(base));
    let ghost av = comps_view(a@);
    let ghost bv = comps_view(b@);
    if b.len() > a.len() {
        return false;
    }
    let mut i: usize = 0;
    while i < b.len()
        invariant
            b@.len() <= a@.len(),
            i <= b@.len(),
            av == comps_view(a@),
            bv == comps_view(b@),
            av == components(p@),
            bv == components(base@),
            forall|j: int| 0 <= j < i ==> av[j] == bv[j],
        decreases b@.len() - i,
    {
        if !comp_eq(&a[i], &b[i]) {
            proof {
                assert(av[i as int] == a@[i as int]@);
                assert(bv[i as int] == b@[i as int]@);
                assert(av.take(bv.len() as int)[i as int] == av[i as int]);
            }
            return false;
        }
        i = i + 1;
    }
    proof {
        assert(av.take(bv.len() as int) =~= bv);
    }
    true
}

} // verus!

verus! {

proof fn lemma_split_plain(x: Seq<char>)
    requires
        !x.contains('/'),
    ensures
        split_slash(x) == seq![x],
    decreases x.len(),
{
    if x.len() > 0 {
        assert(!x.drop_last().contains('/')) by {
            if x.drop_last().contains('/') {
                let i = choose|i: int| 0 <= i < x.drop_last().len() && x.drop_last()[i] == '/';
                assert(x[i] == '/');
            }
        }
        lemma_split_plain(x.drop_last());
        assert(x.last() != '/') by {
            assert(x[x.len() - 1] == x.last());
        }
        assert(x.drop_last().push(x.last()) == x);
        assert(seq![x.drop_last()].update(0, x) =~= seq![x]);
    } else {
        assert(x =~= Seq::<char>::empty());
    }
}

proof fn lemma_split_after_slash(s: Seq<char>, x: Seq<char>)
    requires
        !x.contains('/'),
    ensures
        split_slash(s + seq!['/'] + x) == split_slash(s).push(x),
    decreases x.len(),
{
    let t = s + seq!['/'] + x;
    if x.len() == 0 {
        assert(t.drop_last() =~= s);
        assert(x =~= Seq::<char>::empty());
    } else {
        let y = x.drop_last();
        assert(!y.contains('/')) by {
            if y.contains('/') {
                let i = choose|i: int| 0 <= i < y.len() && y[i] == '/';
                assert(x[i] == '/');
            }
        }
        lemma_split_after_slash(s, y);
        assert(t.drop_last() =~= s + seq!['/'] + y);
        assert(t.last() == x.last());
        assert(x.last() != '/') by {
            assert(x[x.len() - 1] == x.last());
        }
        assert(y.push(x.last()) =~= x);
        assert(split_slash(s).push(y).update(split_slash(s).len() as int, x) =~= split_slash(s).push(x));
    }
}

/// Names without a slash, split again, are the same names.
proof fn lemma_split_joined(parts: Seq<Seq<char>>)
    requires
        parts.len() > 0,
        forall|i: int| 0 <= i < parts.len() ==> !(#[trigger] parts[i]).contains('/'),
    ensures
        split_slash(joined(parts)) == parts,
    decreases parts.len(),
{
    if parts.len() == 1 {
        lemma_split_plain(parts[0]);
        assert(parts =~= seq![parts[0]]);
    } else {
        let p = parts.drop_last();
        assert forall|i: int| 0 <= i < p.len() implies !(#[trigger] p[i]).contains('/') by {
            assert(p[i] == parts[i]);
        }
        lemma_split_joined(p);
        assert(parts.last() == parts[parts.len() - 1]);
        lemma_split_after_slash(joined(p), parts.last());
        assert(p.push(parts.last()) =~= parts);
    }
}

/// The names each stand for themselves.
proof fn lemma_plain_pieces(parts: Seq<Seq<char>>)
    requires
        forall|i: int| 0 <= i < parts.len() ==> (#[trigger] parts[i]).len() > 0 && parts[i][0] != '.',
    ensures
        pieces_comps(parts, false) == parts.map_values(|x: Seq<char>| Comp::Normal(x)),
    decreases parts.len(),
{
    if parts.len() > 0 {
        let p = parts.drop_last();
        assert forall|i: int| 0 <= i < p.len() implies (#[trigger] p[i]).len() > 0 && p[i][0] != '.' by {
            assert(p[i] == parts[i]);
        }
        lemma_plain_pieces(p);
        let x = parts.last();
        assert(x == parts[parts.len() - 1]);
        assert(x != seq!['.']) by {
            if x == seq!['.'] {
                assert(x[0] == '.');
            }
        }
        assert(x != seq!['.', '.']) by {
            if x == seq!['.', '.'] {
                assert(x[0] == '.');
            }
        }
        assert(parts.map_values(|x: Seq<char>| Comp::Normal(x)) =~= p.map_values(
            |x: Seq<char>| Comp::Normal(x),
        ).push(Comp::Normal(x)));
    } else {
        assert(parts.map_values(|x: Seq<char>| Comp::Normal(x)) =~= Seq::<Comp>::empty());
    }
}

proof fn lemma_pieces_plain(s: Seq<char>)
    ensures
        forall|i: int| 0 <= i < split_slash(s).len() ==> !(#[trigger] split_slash(s)[i]).contains('/'),
        split_slash(s).len() > 0,
    decreases s.len(),
{
    if s.len() > 0 {
        lemma_pieces_plain(s.drop_last());
        let p = split_slash(s.drop_last());
        assert forall|i: int| 0 <= i < split_slash(s).len() implies !(#[trigger] split_slash(s)[i]).contains('/') by {
            if s.last() != '/' && i == p.len() - 1 {
                let x = p.last().push(s.last());
                if x.contains('/') {
                    let k = choose|k: int| 0 <= k < x.len() && x[k] == '/';
                    if k < x.len() - 1 {
                        assert(p.last()[k] == '/');
                        assert(p[p.len() - 1].contains('/'));
                    }
                }
            } else if s.last() == '/' && i == p.len() {
                assert(split_slash(s)[i] =~= Seq::<char>::empty());
            } else {
                assert(split_slash(s)[i] == p[i]);
            }
        }
    }
}

proof fn lemma_comps_from_pieces(segs: Seq<Seq<char>>, rooted: bool, x: Seq<char>)
    requires
        pieces_comps(segs, rooted).contains(Comp::Normal(x)),
    ensures
        segs.contains(x),
    decreases segs.len(),
{
    if segs.len() > 0 {
        let prev = pieces_comps(segs.drop_last(), rooted);
        if prev.contains(Comp::Normal(x)) {
            lemma_comps_from_pieces(segs.drop_last(), rooted, x);
            let k = choose|k: int| 0 <= k < segs.drop_last().len() && segs.drop_last()[k] == x;
            assert(segs[k] == x);
        } else {
            let k = choose|k: int| 0 <= k < pieces_comps(segs, rooted).len() && pieces_comps(segs, rooted)[k] == Comp::Normal(x);
            assert(k == prev.len());
            assert(segs[segs.len() - 1] == x);
        }
    }
}

proof fn lemma_names_from_comps(cs: Seq<Comp>, i: int)
    requires
        0 <= i < normal_names(cs).len(),
    ensures
        cs.contains(Comp::Normal(normal_names(cs)[i])),
    decreases cs.len(),
{
    let p = normal_names(cs.drop_last());
    if i < p.len() {
        lemma_names_from_comps(cs.drop_last(), i);
        let k = choose|k: int| 0 <= k < cs.drop_last().len() && cs.drop_last()[k] == Comp::Normal(p[i]);
        assert(cs[k] == Comp::Normal(p[i]));
    } else {
        assert(cs[cs.len() - 1] == Comp::Normal(normal_names(cs)[i]));
    }
}

proof fn lemma_names_plain(cs: Seq<Comp>, i: int)
    requires
        0 <= i < normal_names(cs).len(),
        forall|k: int| 0 <= k < cs.len() ==> plain_comp(#[trigger] cs[k]),
    ensures
        normal_names(cs)[i].len() > 0 && normal_names(cs)[i][0] != '.',
{
    lemma_names_from_comps(cs, i);
    let k = choose|k: int| 0 <= k < cs.len() && cs[k] == Comp::Normal(normal_names(cs)[i]);
    assert(plain_comp(cs[k]));
}

/// Every path the sanitizer accepts becomes a relative path of one or more
/// names, none of them empty, none starting with a dot, none holding a slash;
/// read back as a path, its components are exactly those names.
pub proof fn sanitized_path_is_plain(raw: Seq<char>)
    requires
        sanitized_url(raw) is Some,
    ensures
        ({
            let parts = sanitized_url(raw)->0;
            &&& parts.len() > 0
            &&& forall|i: int| 0 <= i < parts.len() ==> (#[trigger] parts[i]).len() > 0 && parts[i][0] != '.' && !parts[i].contains('/')
            &&& components(joined(parts)) == parts.map_values(|x: Seq<char>| Comp::Normal(x))
        }),
{
    let d = url_decoded(raw)->0;
    let cs = components(d);
    let parts = sanitized_url(raw)->0;
    assert(parts == normal_names(cs));
    assert forall|i: int| 0 <= i < parts.len() implies (#[trigger] parts[i]).len() > 0 && parts[i][0] != '.' && !parts[i].contains('/') by {
        lemma_names_plain(cs, i);
        lemma_names_from_comps(cs, i);
        let x = parts[i];
        let lead = if is_rooted(d) { seq![Comp::RootDir] } else { Seq::<Comp>::empty() };
        let k = choose|k: int| 0 <= k < cs.len() && cs[k] == Comp::Normal(x);
        assert(k >= lead.len());
        assert(pieces_comps(split_slash(d), is_rooted(d))[k - lead.len()] == Comp::Normal(x));
        lemma_comps_from_pieces(split_slash(d), is_rooted(d), x);
        lemma_pieces_plain(d);
        let m = choose|m: int| 0 <= m < split_slash(d).len() && split_slash(d)[m] == x;
    }
    lemma_split_joined(parts);
    lemma_plain_pieces(parts);
    let j = joined(parts);
    assert(!is_rooted(j)) by {
        lemma_joined_starts(parts);
    }
    assert(components(j) =~= pieces_comps(parts, false));
}

proof fn lemma_joined_starts(parts: Seq<Seq<char>>)
    requires
        parts.len() > 0,
        parts[0].len() > 0,
    ensures
        joined(parts).len() > 0 && joined(parts)[0] == parts[0][0],
    decreases parts.len(),
{
    if parts.len() > 1 {
        lemma_joined_starts(parts.drop_last());
    }
}

} // verus!
