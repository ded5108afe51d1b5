//! The configuration: byte sizes, server and location settings, their
//! defaults and the checks made before serving.

use vstd::prelude::*;

use crate::text::{
    chars_of, decimal, digit_value, digits_value, is_digit, push_chars,
    push_decimal, trim, trim_chars,
};

verus! {

pub const KB: u64 = 1024;

pub const MB: u64 = 1048576;

pub const GB: u64 = 1073741824;

/// A number of bytes, read either as an integer or as `"64KB"`, `"1MB"`, `"2GB"`.
#[derive(Clone, Copy, Debug)]
pub struct ByteSize(pub u64);

/// How a byte size is written: the largest unit that divides it evenly.
pub open spec fn byte_size_text(b: u64) -> Seq<char> {
    if b == 0 {
        seq!['0']
    } else if b % GB == 0 {
        decimal((b / GB) as nat) + seq!['G', 'B']
    } else if b % MB == 0 {
        decimal((b / MB) as nat) + seq!['M', 'B']
    } else if b % KB == 0 {
        decimal((b / KB) as nat) + seq!['K', 'B']
    } else {
        decimal(b as nat) + seq!['B']
    }
}

impl ByteSize {
    pub fn as_u64(self) -> (r: u64)
        ensures
            r == self.0,
    {
        self.0
    }

    /// The size as a `usize`, truncated where it does not fit.
    pub fn as_usize(self) -> (r: usize)
        ensures
            r == self.0 as usize,
    {
        self.0 as usize
    }

    /// The size as a `u32`, truncated where it does not fit.
    pub fn as_u32(self) -> (r: u32)
        ensures
            r == self.0 as u32,
    {
        self.0 as u32
    }

    /// The size in its most natural unit: `0`, `64KB`, `1MB`, `1025B`.
    pub fn to_string(&self) -> (r: String)
        ensures
            r@ == byte_size_text(self.0),
    {
        let b = self.0;
        let mut s = String::new();
        if b == 0 {
            push_decimal(&mut s, 0);
        } else if b % GB == 0 {
            push_decimal(&mut s, b / GB);
            push_chars(&mut s, &['G', 'B']);
        } else if b % MB == 0 {
            push_decimal(&mut s, b / MB);
            push_chars(&mut s, &['M', 'B']);
        } else if b % KB == 0 {
            push_decimal(&mut s, b / KB);
            push_chars(&mut s, &['K', 'B']);
        } else {
            push_decimal(&mut s, b);
            push_chars(&mut s, &['B']);
        }
        proof {
            assert(decimal(0) == seq!['0']);
        }
        s
    }

    /// A byte size read from a signed integer: negative values are refused.
    pub fn from_signed(v: i64) -> (r: Result<ByteSize, String>)
        ensures
            v >= 0 ==> r == Ok::<ByteSize, String>(ByteSize(v as u64)),
            v < 0 ==> (r matches Err(e) && e@ == "byte size cannot be negative"@),
    {
        if v < 0 {
            return Err(String::from_str("byte size cannot be negative"));
        }
        Ok(ByteSize(v as u64))
    }
}

/// The number of leading ASCII digits of `s`.
pub open spec fn digit_run(s: Seq<char>) -> nat
    decreases s.len(),
{
    if s.len() > 0 && is_digit(s[0]) {
        1 + digit_run(s.drop_first())
    } else {
        0
    }
}

/// `c` with ASCII lower case letters made upper case.
pub open spec fn ascii_upper(c: char) -> char {
    if 'a' <= c && c <= 'z' {
        ((c as u32) - 32) as char
    } else {
        c
    }
}

/// `c` with ASCII upper case letters made lower case.
pub open spec fn ascii_lower(c: char) -> char {
    if 'A' <= c && c <= 'Z' {
        ((c as u32) + 32) as char
    } else {
        c
    }
}

/// The factor that a unit stands for, ASCII case ignored.
pub open spec fn unit_factor(u: Seq<char>) -> Option<nat> {
    let up = u.map_values(|c: char| ascii_upper(c));
    if up == Seq::<char>::empty() || up == seq!['B'] {
        Some(1)
    } else if up == seq!['K'] || up == seq!['K', 'B'] {
        Some(KB as nat)
    } else if up == seq!['M'] || up == seq!['M', 'B'] {
        Some(MB as nat)
    } else if up == seq!['G'] || up == seq!['G', 'B'] {
        Some(GB as nat)
    } else {
        None
    }
}

/// What a byte size written as text denotes, or the error message for it.
pub open spec fn byte_size_of(s: Seq<char>) -> Result<u64, Seq<char>> {
    let t = trim(s);
    let d = digit_run(t);
    let n = digits_value(t.take(d as int));
    let unit = trim(t.skip(d as int));
    if t.len() == 0 {
        Err("empty byte size"@)
    } else if d == 0 || n > u64::MAX {
        Err("invalid number in byte size: "@ + t)
    } else {
        match unit_factor(unit) {
            None => Err("unknown unit: "@ + unit + " (use B, KB, MB, or GB)"@),
            Some(m) => if n * m > u64::MAX {
                Err("byte size overflow: "@ + t)
            } else {
                Ok((n * m) as u64)
            },
        }
    }
}

} // verus!

verus! {

proof fn lemma_digit_run(s: Seq<char>, i: int)
    requires
        0 <= i <= s.len(),
        forall|k: int| 0 <= k < i ==> is_digit(#[trigger] s[k]),
        i == s.len() || !is_digit(s[i]),
    ensures
        digit_run(s) == i,
    decreases i,
{
    if i > 0 {
        lemma_digit_run(s.drop_first(), i - 1);
    }
}

/// The factor of a unit, ASCII case ignored, or `None` for an unknown unit.
fn unit_multiplier(u: &[char]) -> (r: Option<u64>)
    ensures
        match unit_factor(u@) {
            Some(m) => r == Some(m as u64),
            None => r is None,
        },
{
    let ghost up = u@.map_values(|c: char| ascii_upper(c));
    if u.len() == 0 {
        assert(up =~= Seq::<char>::empty());
        return Some(1);
    }
    if u.len() > 2 {
        assert(up.len() > 2);
        return None;
    }
    let c0 = u[0];
    assert(up[0] == ascii_upper(c0));
    let base: Option<u64> = if c0 == 'k' || c0 == 'K' {
        Some(KB)
    } else if c0 == 'm' || c0 == 'M' {
        Some(MB)
    } else if c0 == 'g' || c0 == 'G' {
        Some(GB)
    } else if c0 == 'b' || c0 == 'B' {
        Some(1)
    } else {
        None
    };
    if u.len() == 1 {
        proof {
            if base is Some {
                assert(up =~= seq![ascii_upper(c0)]);
            }
        }
        return base;
    }
    let c1 = u[1];
    assert(up[1] == ascii_upper(c1));
    if (c1 == 'b' || c1 == 'B') && !(c0 == 'b' || c0 == 'B') {
        proof {
            if base is Some {
                assert(up =~= seq![ascii_upper(c0), 'B']);
            }
        }
        base
    } else {
        None
    }
}

/// Reads a byte size written as `"65536"`, `"64KB"`, `" 1 mb "`: digits, then an
/// optional unit among B, KB, MB, GB (or K, M, G), in any ASCII case, with white
/// space around.
pub fn parse_byte_size(s: &str) -> (r: Result<ByteSize, String>)
    ensures
        match byte_size_of(s@) {
            Ok(n) => r matches Ok(b) && b.0 == n,
            Err(m) => r matches Err(e) && e@ == m,
        },
{
    let all = chars_of(s);
    let t = trim_chars(&all);
    if t.len() == 0 {
        return Err(String::from_str("empty byte size"));
    }
    let mut d: usize = 0;
    while d < t.len() && '0' <= t[d] && t[d] <= '9'
        invariant
            d <= t@.len(),
            forall|k: int| 0 <= k < d ==> is_digit(#[trigger] t@[k]),
        decreases t@.len() - d,
    {
        d = d + 1;
    }
    proof {
        lemma_digit_run(t@, d as int);
    }
    let ghost num = t@.take(d as int);
    let mut n: u64 = 0;
    let mut fits = d > 0;
    let mut i: usize = 0;
    while i < d && fits
        invariant
            i <= d <= t@.len(),
            num == t@.take(d as int),
            forall|k: int| 0 <= k < d ==> is_digit(#[trigger] t@[k]),
            fits ==> d > 0 && n == digits_value(num.take(i as int)),
            !fits ==> (d == 0 || digits_value(num) > u64::MAX),
        decreases d - i,
    {
        let dv = (t[i] as u32 - '0' as u32) as u64;
        proof {
            assert(num.take(i + 1).drop_last() == num.take(i as int));
            assert(num.take(i + 1).last() == t@[i as int]);
            assert(is_digit(t@[i as int]));
        }
        match n.checked_mul(10) {
            Some(m) => match m.checked_add(dv) {
                Some(x) => {
                    n = x;
                },
                None => {
                    proof {
                        crate::text::lemma_digits_grow(num, i + 1);
                    }
                    fits = false;
                },
            },
            None => {
                proof {
                    crate::text::lemma_digits_grow(num, i + 1);
                    let y = digit_value(t@[i as int]);
                    assert(n * 10 <= n * 10 + y);
                }
                fits = false;
            },
        }
        i = i + 1;
    }
    proof {
        if fits {
            assert(num.take(d as int) == num);
        }
    }
    if !fits {
        let mut e = String::from_str("invalid number in byte size: ");
        push_chars(&mut e, &t);
        return Err(e);
    }
    let rest = crate::text::sub_chars(&t, d, t.len());
    let unit = trim_chars(&rest);
    proof {
        assert(rest@ == t@.skip(d as int));
    }
    match unit_multiplier(&unit) {
        None => {
            let mut e = String::from_str("unknown unit: ");
            push_chars(&mut e, &unit);
            e.append(" (use B, KB, MB, or GB)");
            Err(e)
        },
        Some(m) => match n.checked_mul(m) {
            Some(x) => Ok(ByteSize(x)),
            None => {
                let mut e = String::from_str("byte size overflow: ");
                push_chars(&mut e, &t);
                Err(e)
            },
        },
    }
}

} // verus!

verus! {

/// Set of file extensions, stored normalized (no leading dot, ASCII lower case),
/// each once.
#[derive(Debug)]
pub struct ExtensionSet {
    items: Vec<String>,
}

/// The extension names held by a list of strings.
pub open spec fn names_of(items: Seq<String>) -> Seq<Seq<char>> {
    items.map_values(|s: String| s@)
}

impl ExtensionSet {
    #[verifier::type_invariant]
    closed spec fn distinct(&self) -> bool {
        names_of(self.items@).no_duplicates()
    }

    /// The extensions in the set.
    pub closed spec fn view(&self) -> Set<Seq<char>> {
        names_of(self.items@).to_set()
    }

    /// Whether `ext` is in the set (as given: no case folding here).
    pub fn contains(&self, ext: &str) -> (r: bool)
        ensures
            r == self@.contains(ext@),
    {
        let wanted = ext.to_owned();
        let mut i: usize = 0;
        while i < self.items.len()
            invariant
                i <= self.items@.len(),
                wanted@ == ext@,
                forall|k: int| 0 <= k < i ==> self.items@[k]@ != ext@,
            decreases self.items@.len() - i,
        {
            if self.items[i] == wanted {
                proof {
                    assert(names_of(self.items@)[i as int] == ext@);
                }
                return true;
            }
            i = i + 1;
        }
        proof {
            if names_of(self.items@).to_set().contains(ext@) {
                let k = choose|k: int|
                    0 <= k < names_of(self.items@).len() && names_of(self.items@)[k] == ext@;
                assert(self.items@[k]@ == ext@);
            }
        }
        false
    }

    /// The number of extensions in the set.
    pub fn len(&self) -> (r: usize)
        ensures
            r == self@.len(),
    {
        proof {
            use_type_invariant(self);
            names_of(self.items@).unique_seq_to_set();
        }
        self.items.len()
    }
}

/// The number of leading dots of `s`.
pub open spec fn leading_dots(s: Seq<char>) -> nat
    decreases s.len(),
{
    if s.len() > 0 && s[0] == '.' {
        1 + leading_dots(s.drop_first())
    } else {
        0
    }
}

/// An extension as the set stores it: leading dots dropped, ASCII lower case.
pub open spec fn normal_extension(e: Seq<char>) -> Seq<char> {
    e.skip(leading_dots(e) as int).map_values(|c: char| ascii_lower(c))
}

proof fn lemma_leading_dots(s: Seq<char>, i: int)
    requires
        0 <= i <= s.len(),
        forall|k: int| 0 <= k < i ==> #[trigger] s[k] == '.',
        i == s.len() || s[i] != '.',
    ensures
        leading_dots(s) == i,
    decreases i,
{
    if i > 0 {
        lemma_leading_dots(s.drop_first(), i - 1);
    }
}

/// `c` with ASCII upper case letters made lower case.
pub fn lower_char(c: char) -> (r: char)
    ensures
        r == ascii_lower(c),
{
    if 'A' <= c && c <= 'Z' {
        let lows: [char; 26] = [
            'a', 'b', 'c', 'd', 'e', 'f', 'g', 'h', 'i', 'j', 'k', 'l', 'm', 'n', 'o', 'p',
            'q', 'r', 's', 't', 'u', 'v', 'w', 'x', 'y', 'z',
        ];
        let k = (c as u32 - 'A' as u32) as usize;
        let r = lows[k];
        assert(r as u32 == c as u32 + 32) by {
            assert(lows@[k as int] == lows[k as int]);
        }
        r
    } else {
        c
    }
}

/// The set-form of an extension: leading dots dropped, ASCII lower case.
pub fn normalize_extension(e: &str) -> (r: String)
    ensures
        r@ == normal_extension(e@),
{
    let v = chars_of(e);
    let mut a: usize = 0;
    while a < v.len() && v[a] == '.'
        invariant
            a <= v@.len(),
            forall|k: int| 0 <= k < a ==> #[trigger] v@[k] == '.',
        decreases v@.len() - a,
    {
        a = a + 1;
    }
    proof {
        lemma_leading_dots(v@, a as int);
    }
    let mut out: Vec<char> = Vec::new();
    let mut i: usize = a;
    while i < v.len()
        invariant
            a <= i <= v@.len(),
            out@ == v@.subrange(a as int, i as int).map_values(|c: char| ascii_lower(c)),
        decreases v@.len() - i,
    {
        out.push(lower_char(v[i]));
        proof {
            assert(v@.subrange(a as int, i + 1) == v@.subrange(a as int, i as int).push(v@[i as int]));
            assert(v@.subrange(a as int, i + 1).map_values(|c: char| ascii_lower(c))
                =~= v@.subrange(a as int, i as int).map_values(|c: char| ascii_lower(c)).push(ascii_lower(v@[i as int])));
        }
        i = i + 1;
    }
    proof {
        assert(v@.subrange(a as int, v@.len() as int) == v@.skip(a as int));
    }
    crate::text::string_of(&out)
}

} // verus!

verus! {

/// The set of normalized forms of the given extensions.
pub open spec fn normal_extensions(exts: Seq<String>) -> Set<Seq<char>> {
    Set::new(|x: Seq<char>| exists|i: int| 0 <= i < exts.len() && x == normal_extension(#[trigger] exts[i]@))
}

/// Where a location looks for files: a directory and the extensions allowed
/// there (none listed: every extension).
#[derive(Clone, Debug)]
pub struct SearchPath {
    pub root: String,
    pub extensions: Vec<String>,
}

impl SearchPath {
    /// The allowed extensions, normalized, or `None` when every extension is allowed.
    pub fn extension_set(&self) -> (r: Option<ExtensionSet>)
        ensures
            self.extensions@.len() == 0 ==> r is None,
            self.extensions@.len() > 0 ==> (r matches Some(set) && set@ == normal_extensions(
                self.extensions@,
            )),
    {
        if self.extensions.len() == 0 {
            return None;
        }
        let mut items: Vec<String> = Vec::new();
        let mut i: usize = 0;
        while i < self.extensions.len()
            invariant
                i <= self.extensions@.len(),
                names_of(items@).no_duplicates(),
                forall|x: Seq<char>|
                    names_of(items@).contains(x) <==> exists|j: int|
                        0 <= j < i && x == normal_extension(#[trigger] self.extensions@[j]@),
            decreases self.extensions@.len() - i,
        {
            let n = normalize_extension(self.extensions[i].as_str());
            let mut present = false;
            let mut k: usize = 0;
            while k < items.len()
                invariant
                    k <= items@.len(),
                    present <==> exists|m: int| 0 <= m < k && items@[m]@ == n@,
                decreases items@.len() - k,
            {
                if items[k] == n {
                    present = true;
                }
                k = k + 1;
            }
            let ghost before = items@;
            if !present {
                items.push(n);
                proof {
                    assert(names_of(items@) =~= names_of(before).push(n@));
                    assert(!names_of(before).contains(n@)) by {
                        if names_of(before).contains(n@) {
                            let m = choose|m: int| 0 <= m < names_of(before).len() && names_of(before)[m] == n@;
                            assert(before[m]@ == n@);
                        }
                    }
                }
            }
            proof {
                assert forall|x: Seq<char>|
                    names_of(items@).contains(x) <==> exists|j: int|
                        0 <= j < i + 1 && x == normal_extension(#[trigger] self.extensions@[j]@) by {
                    if names_of(items@).contains(x) {
                        let m = choose|m: int| 0 <= m < names_of(items@).len() && names_of(items@)[m] == x;
                        if !present && m == before.len() {
                            assert(x == normal_extension(self.extensions@[i as int]@));
                        } else {
                            assert(names_of(before)[m] == x);
                            assert(names_of(before).contains(x));
                        }
                    }
                    if exists|j: int| 0 <= j < i + 1 && x == normal_extension(#[trigger] self.extensions@[j]@) {
                        let j = choose|j: int| 0 <= j < i + 1 && x == normal_extension(#[trigger] self.extensions@[j]@);
                        if j == i {
                            if present {
                                let m = choose|m: int| 0 <= m < items@.len() && items@[m]@ == n@;
                                assert(names_of(items@)[m] == x);
                            } else {
                                assert(names_of(items@)[before.len() as int] == x);
                            }
                        } else {
                            assert(names_of(before).contains(x));
                            let m = choose|m: int| 0 <= m < names_of(before).len() && names_of(before)[m] == x;
                            assert(names_of(items@)[m] == x);
                        }
                    }
                }
            }
            i = i + 1;
        }
        let set = ExtensionSet { items };
        proof {
            assert(set@ =~= normal_extensions(self.extensions@));
        }
        Some(set)
    }
}

/// Removes trailing slashes, keeping a lone `/`.
pub open spec fn strip_trailing_slashes(p: Seq<char>) -> Seq<char>
    decreases p.len(),
{
    if p.len() > 1 && p.last() == '/' {
        strip_trailing_slashes(p.drop_last())
    } else {
        p
    }
}

/// A prefix as a location uses it: with a leading `/`, without trailing ones.
pub open spec fn normal_prefix(raw: Seq<char>) -> Seq<char> {
    strip_trailing_slashes(
        if raw.len() > 0 && raw[0] == '/' {
            raw
        } else {
            seq!['/'] + raw
        },
    )
}

proof fn lemma_strip_trailing(p: Seq<char>, e: int)
    requires
        1 <= e <= p.len(),
        forall|k: int| e <= k < p.len() ==> #[trigger] p[k] == '/',
        e == 1 || p[e - 1] != '/',
    ensures
        strip_trailing_slashes(p) == p.take(e),
    decreases p.len() - e,
{
    if e < p.len() {
        lemma_strip_trailing(p.drop_last(), e);
        assert(p.drop_last().take(e) == p.take(e));
    } else {
        assert(p.take(e) == p);
    }
}

/// Normalizes a location prefix: a leading `/` is added where missing, trailing
/// `/` are removed, but `/` itself stays.
pub fn normalize_prefix(raw: &str) -> (r: String)
    ensures
        r@ == normal_prefix(raw@),
{
    let v = chars_of(raw);
    let mut p: Vec<char> = Vec::new();
    if v.len() == 0 || v[0] != '/' {
        p.push('/');
    }
    let mut i: usize = 0;
    let ghost lead = p@;
    while i < v.len()
        invariant
            i <= v@.len(),
            p@ == lead + v@.take(i as int),
        decreases v@.len() - i,
    {
        p.push(v[i]);
        proof {
            assert(v@.take(i + 1) == v@.take(i as int).push(v@[i as int]));
        }
        i = i + 1;
    }
    proof {
        assert(v@.take(v@.len() as int) == v@);
        assert(p@ == (if v@.len() > 0 && v@[0] == '/' { v@ } else { seq!['/'] + v@ }));
    }
    let mut e: usize = p.len();
    while e > 1 && p[e - 1] == '/'
        invariant
            1 <= e <= p@.len(),
            forall|k: int| e <= k < p@.len() ==> #[trigger] p@[k] == '/',
        decreases e,
    {
        e = e - 1;
    }
    proof {
        lemma_strip_trailing(p@, e as int);
        assert(p@.subrange(0, e as int) == p@.take(e as int));
    }
    crate::text::string_of(&crate::text::sub_chars(&p, 0, e))
}

} // verus!

verus! {

/// How the search roots of a location are probed.
#[derive(Clone, Copy, Debug, PartialEq, Eq, Structural)]
pub enum SearchMode {
    /// Roots in the order given; the first hit wins.
    Sequential,
    /// All eligible roots at once; the first hit to arrive wins.
    Concurrent,
    /// All eligible roots; the most recently modified hit wins.
    LatestModified,
}

impl Default for SearchMode {
    fn default() -> (r: SearchMode)
        ensures
            r == SearchMode::Sequential,
    {
        SearchMode::Sequential
    }
}

/// One URL prefix and where its files are looked for.
#[derive(Clone, Debug)]
pub struct LocationConfig {
    /// URL prefix, e.g. `/imgs`.
    pub prefix: String,
    pub mode: SearchMode,
    /// Overrides the server's maximum file size when present.
    pub max_file_size: Option<ByteSize>,
    pub paths: Vec<SearchPath>,
}

#[derive(Clone, Debug)]
pub struct CorsConfig {
    pub enabled: bool,
    pub allow_origins: Vec<String>,
    pub allow_methods: Vec<String>,
    pub allow_headers: Vec<String>,
    pub expose_headers: Vec<String>,
    pub max_age: u64,
    pub allow_credentials: bool,
}

/// The views of a list of strings.
pub open spec fn texts(v: Seq<String>) -> Seq<Seq<char>> {
    v.map_values(|s: String| s@)
}

impl Default for CorsConfig {
    fn default() -> (r: CorsConfig)
        ensures
            !r.enabled,
            texts(r.allow_origins@) == seq!["*"@],
            texts(r.allow_methods@) == seq!["GET"@, "HEAD"@, "OPTIONS"@],
            texts(r.allow_headers@) == seq!["*"@],
            texts(r.expose_headers@) == seq!["Content-Length"@, "Content-Type"@],
            r.max_age == 86400,
            !r.allow_credentials,
    {
        let r = CorsConfig {
            enabled: false,
            allow_origins: vec![String::from_str("*")],
            allow_methods: vec![
                String::from_str("GET"),
                String::from_str("HEAD"),
                String::from_str("OPTIONS"),
            ],
            allow_headers: vec![String::from_str("*")],
            expose_headers: vec![
                String::from_str("Content-Length"),
                String::from_str("Content-Type"),
            ],
            max_age: 86400,
            allow_credentials: false,
        };
        proof {
            assert(texts(r.allow_origins@) =~= seq!["*"@]);
            assert(texts(r.allow_methods@) =~= seq!["GET"@, "HEAD"@, "OPTIONS"@]);
            assert(texts(r.allow_headers@) =~= seq!["*"@]);
            assert(texts(r.expose_headers@) =~= seq!["Content-Length"@, "Content-Type"@]);
        }
        r
    }
}

#[derive(Clone, Debug)]
pub struct RateLimitConfig {
    pub enabled: bool,
    pub requests_per_second: u32,
    pub burst_size: u32,
    /// Seconds between two sweeps of idle clients.
    pub cleanup_interval: u64,
}

impl Default for RateLimitConfig {
    fn default() -> (r: RateLimitConfig)
        ensures
            !r.enabled,
            r.requests_per_second == 10,
            r.burst_size == 30,
            r.cleanup_interval == 600,
    {
        RateLimitConfig {
            enabled: false,
            requests_per_second: 10,
            burst_size: 30,
            cleanup_interval: 600,
        }
    }
}

#[derive(Clone, Debug)]
pub struct CompressionConfig {
    pub enabled: bool,
    pub algorithms: Vec<String>,
    pub min_size: ByteSize,
}

impl Default for CompressionConfig {
    fn default() -> (r: CompressionConfig)
        ensures
            !r.enabled,
            texts(r.algorithms@) == seq!["gzip"@, "br"@],
            r.min_size.0 == 1024,
    {
        let r = CompressionConfig {
            enabled: false,
            algorithms: vec![String::from_str("gzip"), String::from_str("br")],
            min_size: ByteSize(1024),
        };
        proof {
            assert(texts(r.algorithms@) =~= seq!["gzip"@, "br"@]);
        }
        r
    }
}

/// Server settings; every one but the bind address has a default.
#[derive(Clone, Debug)]
pub struct ServerConfig {
    /// Bind address, e.g. `0.0.0.0:8080`.
    pub bind: String,
    /// HTTP/1.1 keep-alive.
    pub keepalive: bool,
    /// Longest life of a connection in seconds (0: no limit).
    pub connection_timeout: u64,
    /// Largest request line plus headers.
    pub max_header_size: ByteSize,
    /// Most request headers.
    pub max_headers: usize,
    /// Largest `Content-Length` accepted.
    pub max_body_size: ByteSize,
    /// Most concurrent HTTP/2 streams per connection.
    pub http2_max_streams: u32,
    /// Largest file served; larger ones are skipped during the search.
    pub max_file_size: ByteSize,
    /// Chunk size of a streamed response body.
    pub stream_buffer_size: ByteSize,
    pub cors: CorsConfig,
    pub rate_limit: RateLimitConfig,
    pub compression: CompressionConfig,
}

impl Default for ServerConfig {
    fn default() -> (r: ServerConfig)
        ensures
            r.bind@ == "0.0.0.0:8080"@,
            r.keepalive,
            r.connection_timeout == 300,
            r.max_header_size.0 == 8192,
            r.max_headers == 64,
            r.max_body_size.0 == 1048576,
            r.http2_max_streams == 128,
            r.max_file_size.0 == 10 * MB,
            r.stream_buffer_size.0 == 65536,
            !r.cors.enabled,
            !r.rate_limit.enabled,
            !r.compression.enabled,
    {
        ServerConfig {
            bind: String::from_str("0.0.0.0:8080"),
            keepalive: true,
            connection_timeout: 300,
            max_header_size: ByteSize(8192),
            max_headers: 64,
            max_body_size: ByteSize(1048576),
            http2_max_streams: 128,
            max_file_size: ByteSize(10 * MB),
            stream_buffer_size: ByteSize(65536),
            cors: CorsConfig::default(),
            rate_limit: RateLimitConfig::default(),
            compression: CompressionConfig::default(),
        }
    }
}

/// The whole configuration: server settings and the locations served.
#[derive(Clone, Debug)]
pub struct Config {
    pub server: ServerConfig,
    pub locations: Vec<LocationConfig>,
}

} // verus!

verus! {

/// The smallest header buffer that the HTTP layer accepts.
pub const MIN_HEADER_SIZE: u64 = 8192;

/// What `{:?}` prints for a string: quoted, with escapes.
pub uninterp spec fn debug_text(s: Seq<char>) -> Seq<char>;

/// Relies on the `Debug` format of `str`: the quoted, escaped form of the text,
/// which depends on the text alone.
#[verifier::external_body]
fn debug_quoted(s: &str) -> (r: String)
    ensures
        r@ == debug_text(s@),
{
    format!("{:?}", s)
}

/// Whether one of `v` is exactly `t`.
pub open spec fn has_text(v: Seq<String>, t: Seq<char>) -> bool {
    exists|i: int| 0 <= i < v.len() && (#[trigger] v[i])@ == t
}

pub open spec fn known_algorithm(a: Seq<char>) -> bool {
    a == "gzip"@ || a == "deflate"@ || a == "br"@ || a == "zstd"@
}

/// The complaint about the first unknown compression algorithm, if any.
pub open spec fn algorithm_problem(algos: Seq<String>) -> Option<Seq<char>>
    decreases algos.len(),
{
    if algos.len() == 0 {
        None
    } else {
        match algorithm_problem(algos.drop_last()) {
            Some(m) => Some(m),
            None => if known_algorithm(algos.last()@) {
                None
            } else {
                Some(
                    "unknown compression algorithm: "@ + debug_text(algos.last()@)
                        + " (valid: gzip, deflate, br, zstd)"@,
                )
            },
        }
    }
}

/// The complaint about the first location that is not acceptable, if any.
pub open spec fn location_problem(locs: Seq<LocationConfig>) -> Option<Seq<char>>
    decreases locs.len(),
{
    if locs.len() == 0 {
        None
    } else {
        match location_problem(locs.drop_last()) {
            Some(m) => Some(m),
            None => {
                let l = locs.last();
                if l.paths@.len() == 0 {
                    Some("location prefix="@ + debug_text(l.prefix@) + " must have at least one path"@)
                } else if l.prefix@.contains('\0') || crate::text::has_dot_dot(l.prefix@) {
                    Some("location prefix="@ + debug_text(l.prefix@) + " contains forbidden characters"@)
                } else if exists|j: int|
                    0 <= j < locs.len() - 1 && normal_prefix((#[trigger] locs[j]).prefix@)
                        == normal_prefix(l.prefix@) {
                    Some("duplicate location prefix="@ + debug_text(l.prefix@))
                } else {
                    None
                }
            },
        }
    }
}

/// The first complaint about a configuration, in the order the checks are made.
pub open spec fn config_problem(c: Config) -> Option<Seq<char>> {
    let s = c.server;
    if s.max_header_size.0 < MIN_HEADER_SIZE {
        Some(
            "max_header_size must be >= "@ + byte_size_text(MIN_HEADER_SIZE) + " (got "@
                + byte_size_text(s.max_header_size.0) + ")"@,
        )
    } else if s.stream_buffer_size.0 == 0 {
        Some("stream_buffer_size must be > 0"@)
    } else if c.locations@.len() == 0 {
        Some("at least one [[locations]] must be configured"@)
    } else if s.cors.enabled && s.cors.allow_credentials && has_text(s.cors.allow_origins@, "*"@) {
        Some("CORS: allow_credentials=true is incompatible with allow_origins=[\"*\"]"@)
    } else if s.rate_limit.enabled && s.rate_limit.requests_per_second == 0 {
        Some("rate_limit.requests_per_second must be > 0"@)
    } else if s.rate_limit.enabled && s.rate_limit.burst_size == 0 {
        Some("rate_limit.burst_size must be > 0"@)
    } else if s.compression.enabled && algorithm_problem(s.compression.algorithms@) is Some {
        algorithm_problem(s.compression.algorithms@)
    } else if s.compression.enabled && s.compression.algorithms@.len() == 0 {
        Some("compression.algorithms must not be empty when compression is enabled"@)
    } else {
        location_problem(c.locations@)
    }
}

fn algorithm_check(algos: &Vec<String>) -> (r: Option<String>)
    ensures
        match algorithm_problem(algos@) {
            Some(m) => r matches Some(e) && e@ == m,
            None => r is None,
        },
{
    let mut i: usize = 0;
    while i < algos.len()
        invariant
            i <= algos@.len(),
            algorithm_problem(algos@.take(i as int)) is None,
        decreases algos@.len() - i,
    {
        let a = algos[i].as_str();
        proof {
            assert(algos@.take(i + 1).drop_last() == algos@.take(i as int));
        }
        if !(crate::text::str_eq(a, "gzip") || crate::text::str_eq(a, "deflate")
            || crate::text::str_eq(a, "br") || crate::text::str_eq(a, "zstd")) {
            let mut e = String::from_str("unknown compression algorithm: ");
            let q = debug_quoted(a);
            e.append(q.as_str());
            e.append(" (valid: gzip, deflate, br, zstd)");
            proof {
                lemma_problem_stays(algos@, i as int + 1);
            }
            return Some(e);
        }
        i = i + 1;
    }
    proof {
        assert(algos@.take(algos@.len() as int) == algos@);
    }
    None
}

proof fn lemma_problem_stays(algos: Seq<String>, i: int)
    requires
        0 <= i <= algos.len(),
        algorithm_problem(algos.take(i)) is Some,
    ensures
        algorithm_problem(algos) == algorithm_problem(algos.take(i)),
    decreases algos.len() - i,
{
    if i < algos.len() {
        assert(algos.take(i + 1).drop_last() == algos.take(i));
        lemma_problem_stays(algos, i + 1);
    } else {
        assert(algos.take(i) == algos);
    }
}

proof fn lemma_location_problem_stays(locs: Seq<LocationConfig>, i: int)
    requires
        0 <= i <= locs.len(),
        location_problem(locs.take(i)) is Some,
    ensures
        location_problem(locs) == location_problem(locs.take(i)),
    decreases locs.len() - i,
{
    if i < locs.len() {
        assert(locs.take(i + 1).drop_last() == locs.take(i));
        lemma_location_problem_stays(locs, i + 1);
    } else {
        assert(locs.take(i) == locs);
    }
}

fn location_check(locs: &Vec<LocationConfig>) -> (r: Option<String>)
    ensures
        match location_problem(locs@) {
            Some(m) => r matches Some(e) && e@ == m,
            None => r is None,
        },
{
    let mut seen: Vec<String> = Vec::new();
    let mut i: usize = 0;
    while i < locs.len()
        invariant
            i <= locs@.len(),
            location_problem(locs@.take(i as int)) is None,
            seen@.len() == i,
            forall|j: int| 0 <= j < i ==> (#[trigger] seen@[j])@ == normal_prefix(locs@[j].prefix@),
        decreases locs@.len() - i,
    {
        let loc = &locs[i];
        let ghost pre = locs@.take(i + 1);
        proof {
            assert(pre.drop_last() == locs@.take(i as int));
            assert(pre.last() == locs@[i as int]);
        }
        if loc.paths.len() == 0 {
            let mut e = String::from_str("location prefix=");
            let q = debug_quoted(loc.prefix.as_str());
            e.append(q.as_str());
            e.append(" must have at least one path");
            proof {
                lemma_location_problem_stays(locs@, i as int + 1);
            }
            return Some(e);
        }
        if crate::text::has_nul_or_dot_dot(loc.prefix.as_str()) {
            let mut e = String::from_str("location prefix=");
            let q = debug_quoted(loc.prefix.as_str());
            e.append(q.as_str());
            e.append(" contains forbidden characters");
            proof {
                lemma_location_problem_stays(locs@, i as int + 1);
            }
            return Some(e);
        }
        let normalized = normalize_prefix(loc.prefix.as_str());
        if crate::text::list_contains(&seen, normalized.as_str()) {
            let mut e = String::from_str("duplicate location prefix=");
            let q = debug_quoted(loc.prefix.as_str());
            e.append(q.as_str());
            proof {
                let k = choose|k: int| 0 <= k < seen@.len() && (#[trigger] seen@[k])@ == normalized@;
                assert(pre[k] == locs@[k]);
                lemma_location_problem_stays(locs@, i as int + 1);
            }
            return Some(e);
        }
        proof {
            if exists|j: int|
                0 <= j < pre.len() - 1 && normal_prefix((#[trigger] pre[j]).prefix@)
                    == normal_prefix(loc.prefix@) {
                let j = choose|j: int|
                    0 <= j < pre.len() - 1 && normal_prefix((#[trigger] pre[j]).prefix@)
                        == normal_prefix(loc.prefix@);
                assert(seen@[j]@ == normalized@);
            }
        }
        seen.push(normalized);
        i = i + 1;
    }
    proof {
        assert(locs@.take(locs@.len() as int) == locs@);
    }
    None
}

impl Config {
    /// Checks the configuration before it is served. The first problem found is
    /// reported, in this order: header buffer, stream buffer, locations present,
    /// CORS, rate limit, compression, then each location in turn.
    pub fn validate(&self) -> (r: Result<(), String>)
        ensures
            match config_problem(*self) {
                Some(m) => r matches Err(e) && e@ == m,
                None => r is Ok,
            },
    {
        let s = &self.server;
        if s.max_header_size.0 < MIN_HEADER_SIZE {
            let mut e = String::from_str("max_header_size must be >= ");
            let least = ByteSize(MIN_HEADER_SIZE).to_string();
            e.append(least.as_str());
            e.append(" (got ");
            let got = s.max_header_size.to_string();
            e.append(got.as_str());
            e.append(")");
            return Err(e);
        }
        if s.stream_buffer_size.0 == 0 {
            return Err(String::from_str("stream_buffer_size must be > 0"));
        }
        if self.locations.len() == 0 {
            return Err(String::from_str("at least one [[locations]] must be configured"));
        }
        if s.cors.enabled && s.cors.allow_credentials && crate::text::list_contains(
            &s.cors.allow_origins,
            "*",
        ) {
            return Err(
                String::from_str(
                    "CORS: allow_credentials=true is incompatible with allow_origins=[\"*\"]",
                ),
            );
        }
        if s.rate_limit.enabled {
            if s.rate_limit.requests_per_second == 0 {
                return Err(String::from_str("rate_limit.requests_per_second must be > 0"));
            }
            if s.rate_limit.burst_size == 0 {
                return Err(String::from_str("rate_limit.burst_size must be > 0"));
            }
        }
        if s.compression.enabled {
            match algorithm_check(&s.compression.algorithms) {
                Some(e) => {
                    return Err(e);
                },
                None => {},
            }
            if s.compression.algorithms.len() == 0 {
                return Err(
                    String::from_str(
                        "compression.algorithms must not be empty when compression is enabled",
                    ),
                );
            }
        }
        match location_check(&self.locations) {
            Some(e) => Err(e),
            None => Ok(()),
        }
    }
}

} // verus!

verus! {

/// `s` with ASCII upper case letters made lower case.
pub fn lowercase_ascii(s: &str) -> (r: String)
    ensures
        r@ == s@.map_values(|c: char| ascii_lower(c)),
{
    let v = chars_of(s);
    let mut out: Vec<char> = Vec::new();
    let mut i: usize = 0;
    while i < v.len()
        invariant
            i <= v@.len(),
            out@ == v@.take(i as int).map_values(|c: char| ascii_lower(c)),
        decreases v@.len() - i,
    {
        out.push(lower_char(v[i]));
        proof {
            assert(v@.take(i + 1) == v@.take(i as int).push(v@[i as int]));
            assert(v@.take(i + 1).map_values(|c: char| ascii_lower(c)) =~= v@.take(i as int).map_values(
                |c: char| ascii_lower(c),
            ).push(ascii_lower(v@[i as int])));
        }
        i = i + 1;
    }
    proof {
        assert(v@.take(v@.len() as int) == v@);
    }
    crate::text::string_of(&out)
}

} // verus!
