//! URL resolution: splitting a raw string into scheme, hostname, port, dial
//! target and path, with the scheme matched case-insensitively and default
//! ports filled in by scheme.

use vstd::prelude::*;
use vstd::string::StrSliceExecFns;

use crate::text::{
    dec_str, dec_val, find_char_from, find_from, is_dec_bounded, lemma_dec_str_digits,
    lemma_find_from_agree, lemma_find_from_none, lemma_find_from_props, lemma_find_from_val,
    lemma_skip_char_run_agree, lemma_skip_char_run_val, lower_char, lower_char_x, lower_seq,
    parse_dec_bounded, push_char, push_dec_u16, push_range, skip_char_run, skip_char_run_x,
    string_of_range, to_char_vec,
};
use crate::{ConfigError, FetchError};

verus! {

/// The protocol selector of a URL. It decides the transport (plain or
/// TLS-upgraded) and the default port.
#[derive(Clone, Copy, Debug, PartialEq, Eq, Structural)]
pub enum Scheme {
    Https,
    Http,
    File,
    Data,
}

/// Scheme recognition and the position where the remainder of the URL begins.
/// A missing scheme defaults to `Https` with the whole string as remainder; a
/// token that is no known scheme also defaults to `Https`, but then the whole
/// original string, colon included, is reparsed as the remainder.
pub open spec fn scheme_split(s: Seq<char>) -> (Scheme, int) {
    match find_from(s, ':', 0) {
        None => (Scheme::Https, 0),
        Some(i) => {
            let tok = lower_seq(s.take(i));
            if tok == Seq::<char>::empty() || tok == "https"@ {
                (Scheme::Https, i + 1)
            } else if tok == "http"@ {
                (Scheme::Http, i + 1)
            } else if tok == "file"@ {
                (Scheme::File, i + 1)
            } else if tok == "data"@ {
                (Scheme::Data, i + 1)
            } else {
                (Scheme::Https, 0)
            }
        },
    }
}

pub open spec fn spec_scheme(s: Seq<char>) -> Scheme {
    scheme_split(s).0
}

/// Where the remainder (host and path) of the raw string begins.
pub open spec fn rest_base(s: Seq<char>) -> int {
    scheme_split(s).1
}

/// The first host character: leading `/` characters of the remainder are
/// stripped, since some schemes are written without the double slash.
pub open spec fn host_start(s: Seq<char>) -> int {
    skip_char_run(s, '/', rest_base(s))
}

/// One past the last host character: the next `/`, or the end of the string.
pub open spec fn host_end(s: Seq<char>) -> int {
    match find_from(s, '/', host_start(s)) {
        Some(k) => k,
        None => s.len() as int,
    }
}

/// The position of the `:` that separates hostname from port, if the host
/// token carries one.
pub open spec fn colon_pos(s: Seq<char>) -> Option<int> {
    match find_from(s, ':', host_start(s)) {
        Some(p) => if p < host_end(s) {
            Some(p)
        } else {
            None
        },
        None => None,
    }
}

pub open spec fn hostname_end(s: Seq<char>) -> int {
    match colon_pos(s) {
        Some(p) => p,
        None => host_end(s),
    }
}

/// The hostname exactly as written: case is preserved.
pub open spec fn spec_hostname(s: Seq<char>) -> Seq<char> {
    s.subrange(host_start(s), hostname_end(s))
}

/// The characters of the explicit port, when one is written.
pub open spec fn port_token(s: Seq<char>) -> Option<Seq<char>> {
    match colon_pos(s) {
        Some(p) => Some(s.subrange(p + 1, host_end(s))),
        None => None,
    }
}

/// Resolution succeeds exactly when any explicit port is a decimal 16-bit
/// unsigned integer; a malformed port is a configuration error.
pub open spec fn port_ok(s: Seq<char>) -> bool {
    match port_token(s) {
        None => true,
        Some(t) => is_dec_bounded(t, 65535),
    }
}

/// The resolved port: the explicit one when written, else 443 for `Https` and
/// 80 for every other scheme.
pub open spec fn spec_port(s: Seq<char>) -> u16 {
    match port_token(s) {
        None => if spec_scheme(s) == Scheme::Https {
            443
        } else {
            80
        },
        Some(t) => dec_val(t) as u16,
    }
}

/// The dial target: `hostname:port` with the resolved port written out.
pub open spec fn spec_host(s: Seq<char>) -> Seq<char> {
    spec_hostname(s) + seq![':'] + dec_str(spec_port(s) as int)
}

/// The resolved path: what follows the `/` that ended the host token, with
/// the leading `/` reinstated; an absent path resolves to exactly `/`.
pub open spec fn spec_path(s: Seq<char>) -> Seq<char> {
    seq!['/'] + if host_end(s) < s.len() {
        s.subrange(host_end(s) + 1, s.len() as int)
    } else {
        Seq::<char>::empty()
    }
}

/// The written form of each scheme.
pub open spec fn scheme_text(scheme: Scheme) -> Seq<char> {
    match scheme {
        Scheme::Https => "https"@,
        Scheme::Http => "http"@,
        Scheme::File => "file"@,
        Scheme::Data => "data"@,
    }
}

/// The tokens the scheme matcher recognizes, in lowercase.
pub open spec fn is_scheme_token(tok: Seq<char>) -> bool {
    ||| tok == Seq::<char>::empty()
    ||| tok == "https"@
    ||| tok == "http"@
    ||| tok == "file"@
    ||| tok == "data"@
}

/// How an explicit port is written, when it is written at all.
pub open spec fn port_section(port: Option<u16>) -> Seq<char> {
    match port {
        Some(p) => seq![':'] + dec_str(p as int),
        None => Seq::<char>::empty(),
    }
}

/// What resolution makes of the remainder after the scheme: with the
/// remainder laid out as slashes, then a host without `:` or `/`, then an
/// optional `:port`, then a path that is empty or begins with `/`, every
/// component is recovered exactly, the default port filled in by scheme and
/// an omitted path resolving to `/`.
proof fn lemma_rest_components(
    raw: Seq<char>,
    base: int,
    slashes: Seq<char>,
    host: Seq<char>,
    port: Option<u16>,
    path: Seq<char>,
)
    requires
        0 <= base <= raw.len(),
        rest_base(raw) == base,
        raw.skip(base) == slashes + host + port_section(port) + path,
        forall|k: int| 0 <= k < slashes.len() ==> slashes[k] == '/',
        host.len() > 0,
        forall|k: int| 0 <= k < host.len() ==> host[k] != ':' && host[k] != '/',
        path.len() == 0 || path[0] == '/',
    ensures
        port_ok(raw),
        spec_hostname(raw) == host,
        spec_port(raw) == match port {
            Some(p) => p,
            None => if spec_scheme(raw) == Scheme::Https {
                443u16
            } else {
                80u16
            },
        },
        spec_path(raw) == if path.len() == 0 {
            seq!['/']
        } else {
            path
        },
        spec_host(raw) == host + seq![':'] + dec_str(spec_port(raw) as int),
{
    let r = slashes + host + port_section(port) + path;
    let sl = slashes.len() as int;
    let hl = host.len() as int;
    let pl = port_section(port).len() as int;
    let h0 = base + sl;
    let he = h0 + hl;
    let pe = he + pl;
    assert(raw.len() == base + r.len());
    assert forall|k: int| base <= k < raw.len() implies raw[k] == r[k - base] by {
        assert(raw.skip(base)[k - base] == raw[k]);
    }
    if port is Some {
        lemma_dec_str_digits(port->0 as int);
        assert(pl >= 2);
    }
    // the slash run ends exactly where the host begins
    assert(raw[h0] == host[0]);
    lemma_skip_char_run_val(raw, '/', base, h0);
    assert(host_start(raw) == h0);
    // the host ends at the path's slash, or at the end of the string
    assert(forall|k: int| h0 <= k < pe ==> raw[k] != '/') by {
        if port is Some {
            assert(forall|k: int| 0 <= k < dec_str(port->0 as int).len() ==> crate::text::is_digit(
                #[trigger] dec_str(port->0 as int)[k],
            ));
        }
    }
    if path.len() == 0 {
        assert(raw.len() == pe);
        lemma_find_from_none(raw, '/', h0);
        assert(host_end(raw) == raw.len());
    } else {
        assert(raw[pe] == path[0]);
        lemma_find_from_val(raw, '/', h0, pe);
        assert(host_end(raw) == pe);
    }
    // the hostname ends at the port's colon, or with the host token
    match port {
        Some(p) => {
            assert(raw[he] == ':');
            lemma_find_from_val(raw, ':', h0, he);
            assert(colon_pos(raw) == Some(he));
            assert(spec_hostname(raw) =~= host);
            let t = raw.subrange(he + 1, pe);
            assert(t =~= dec_str(p as int));
            lemma_dec_str_digits(p as int);
            assert(port_ok(raw));
            assert(spec_port(raw) == p);
        },
        None => {
            assert(pe == he);
            lemma_find_from_props(raw, ':', h0);
            match find_from(raw, ':', h0) {
                Some(q) => {
                    assert(raw[q] == ':');
                    assert(q >= host_end(raw));
                    assert(colon_pos(raw) is None);
                },
                None => {
                    assert(colon_pos(raw) is None);
                },
            }
            assert(spec_hostname(raw) =~= host);
            assert(port_ok(raw));
        },
    }
    // the path begins after the host token's closing slash
    if path.len() == 0 {
        assert(spec_path(raw) =~= seq!['/']);
    } else {
        assert(spec_path(raw) =~= seq!['/'] + raw.subrange(pe + 1, raw.len() as int));
        assert(seq!['/'] + raw.subrange(pe + 1, raw.len() as int) =~= path);
    }
}

/// For every well-formed `scheme://host[:port][/path]` string, resolution
/// recovers the scheme, the host, the explicit port or the scheme's default,
/// and a path that always begins with `/`, an omitted path resolving to
/// exactly `/`.
pub proof fn lemma_resolve_round_trip(
    scheme: Scheme,
    host: Seq<char>,
    port: Option<u16>,
    path: Seq<char>,
)
    requires
        host.len() > 0,
        forall|k: int| 0 <= k < host.len() ==> host[k] != ':' && host[k] != '/',
        path.len() == 0 || path[0] == '/',
    ensures
        ({
            let raw = scheme_text(scheme) + ":"@ + ("//"@ + host + port_section(port) + path);
            &&& port_ok(raw)
            &&& spec_scheme(raw) == scheme
            &&& spec_hostname(raw) == host
            &&& spec_port(raw) == match port {
                Some(p) => p,
                None => if scheme == Scheme::Https {
                    443u16
                } else {
                    80u16
                },
            }
            &&& spec_path(raw) == if path.len() == 0 {
                seq!['/']
            } else {
                path
            }
            &&& spec_host(raw) == host + seq![':'] + dec_str(spec_port(raw) as int)
        }),
{
    reveal_strlit("https");
    reveal_strlit("http");
    reveal_strlit("file");
    reveal_strlit("data");
    reveal_strlit(":");
    reveal_strlit("//");
    let st = scheme_text(scheme);
    let ll = st.len() as int;
    let raw = st + ":"@ + ("//"@ + host + port_section(port) + path);
    assert(raw[ll] == ':');
    assert forall|k: int| 0 <= k < ll implies raw[k] != ':' by {
        assert(raw[k] == st[k]);
    }
    lemma_find_from_val(raw, ':', 0, ll);
    assert(raw.take(ll) =~= st);
    assert(lower_seq(st) =~= st);
    assert(scheme_split(raw) == (scheme, ll + 1));
    assert(raw.skip(ll + 1) =~= "//"@ + host + port_section(port) + path);
    lemma_rest_components(raw, ll + 1, "//"@, host, port, path);
}

/// A host with no scheme resolves with the `Https` defaults: the whole
/// string up to the first `/` is the host, and the port defaults to 443.
pub proof fn lemma_schemeless_defaults(host: Seq<char>, path: Seq<char>)
    requires
        host.len() > 0,
        forall|k: int| 0 <= k < host.len() ==> host[k] != ':' && host[k] != '/',
        path.len() == 0 || path[0] == '/',
    ensures
        ({
            let raw = host + path;
            &&& port_ok(raw)
            &&& spec_scheme(raw) == Scheme::Https
            &&& spec_hostname(raw) == host
            &&& spec_port(raw) == 443u16
            &&& spec_path(raw) == if path.len() == 0 {
                seq!['/']
            } else {
                path
            }
        }),
{
    reveal_strlit("https");
    reveal_strlit("http");
    reveal_strlit("file");
    reveal_strlit("data");
    let raw = host + path;
    let hl = host.len() as int;
    lemma_find_from_props(raw, ':', 0);
    match find_from(raw, ':', 0) {
        None => {
            assert(scheme_split(raw) == (Scheme::Https, 0int));
        },
        Some(j) => {
            assert(raw[j] == ':');
            assert(j > hl);
            let tok = lower_seq(raw.take(j));
            assert(tok.len() == j);
            assert(tok[hl] == lower_char(raw[hl]));
            assert(raw[hl] == path[0]);
            assert(tok[hl] == '/');
            assert(tok != "https"@);
            assert(tok != "http"@);
            assert(tok != "file"@);
            assert(tok != "data"@);
            assert(scheme_split(raw) == (Scheme::Https, 0int));
        },
    }
    assert(raw.skip(0) =~= Seq::<char>::empty() + host + port_section(None) + path);
    lemma_rest_components(raw, 0, Seq::<char>::empty(), host, None, path);
}

/// Scheme matching is case-insensitive: two raw strings whose scheme tokens
/// agree up to ASCII case (and match a known scheme) and whose remainders are
/// identical resolve to the same components.
pub proof fn lemma_scheme_case_insensitive(a: Seq<char>, b: Seq<char>, rest: Seq<char>)
    requires
        lower_seq(a) == lower_seq(b),
        is_scheme_token(lower_seq(a)),
        forall|k: int| 0 <= k < a.len() ==> a[k] != ':',
        forall|k: int| 0 <= k < b.len() ==> b[k] != ':',
    ensures
        ({
            let r1 = a + ":"@ + rest;
            let r2 = b + ":"@ + rest;
            &&& spec_scheme(r1) == spec_scheme(r2)
            &&& port_ok(r1) == port_ok(r2)
            &&& spec_hostname(r1) == spec_hostname(r2)
            &&& spec_port(r1) == spec_port(r2)
            &&& spec_path(r1) == spec_path(r2)
            &&& spec_host(r1) == spec_host(r2)
        }),
{
    reveal_strlit(":");
    let r1 = a + ":"@ + rest;
    let r2 = b + ":"@ + rest;
    let ll = a.len() as int;
    assert(lower_seq(a).len() == a.len());
    assert(lower_seq(b).len() == b.len());
    assert(b.len() == a.len());
    assert(r1.len() == r2.len());
    assert(r1[ll] == ':');
    assert(r2[ll] == ':');
    assert forall|k: int| 0 <= k < ll implies r1[k] != ':' && r2[k] != ':' by {
        assert(r1[k] == a[k]);
        assert(r2[k] == b[k]);
    }
    lemma_find_from_val(r1, ':', 0, ll);
    lemma_find_from_val(r2, ':', 0, ll);
    assert(r1.take(ll) =~= a);
    assert(r2.take(ll) =~= b);
    let tok = lower_seq(a);
    assert(scheme_split(r1) == scheme_split(r2));
    assert(scheme_split(r1).1 == ll + 1) by {
        assert(is_scheme_token(tok));
    }
    let base = ll + 1;
    assert forall|k: int| base <= k < r1.len() implies r1[k] == r2[k] by {
        assert(r1[k] == rest[k - base]);
        assert(r2[k] == rest[k - base]);
    }
    lemma_skip_char_run_agree(r1, r2, '/', base, base);
    let h0 = host_start(r1);
    assert(host_start(r2) == h0);
    crate::text::lemma_skip_char_run_props(r1, '/', base);
    lemma_find_from_agree(r1, r2, '/', h0, base);
    assert(host_end(r1) == host_end(r2));
    lemma_find_from_agree(r1, r2, ':', h0, base);
    assert(colon_pos(r1) == colon_pos(r2));
    lemma_find_from_props(r1, '/', h0);
    lemma_find_from_props(r1, ':', h0);
    let he = host_end(r1);
    let hn = hostname_end(r1);
    assert(base <= h0 <= hn <= he <= r1.len());
    assert(spec_hostname(r1) =~= spec_hostname(r2)) by {
        assert forall|j: int| 0 <= j < hn - h0 implies r1.subrange(h0, hn)[j] == r2.subrange(
            h0,
            hn,
        )[j] by {
            assert(r1[h0 + j] == r2[h0 + j]);
        }
    }
    match colon_pos(r1) {
        Some(p) => {
            assert(port_token(r1)->0 =~= port_token(r2)->0) by {
                assert forall|j: int| 0 <= j < he - (p + 1) implies #[trigger] r1.subrange(
                    p + 1,
                    he,
                )[j] == r2.subrange(p + 1, he)[j] by {
                    assert(r1[p + 1 + j] == r2[p + 1 + j]);
                }
            }
        },
        None => {},
    }
    assert(port_ok(r1) == port_ok(r2));
    assert(spec_port(r1) == spec_port(r2));
    assert(spec_path(r1) =~= spec_path(r2)) by {
        if he < r1.len() {
            assert forall|j: int| 0 <= j < r1.len() - (he + 1) implies #[trigger] r1.subrange(
                he + 1,
                r1.len() as int,
            )[j] == r2.subrange(he + 1, r2.len() as int)[j] by {
                assert(r1[he + 1 + j] == r2[he + 1 + j]);
            }
        }
    }
    assert(spec_host(r1) == spec_host(r2));
}

/// Whether `v[from .. to]`, folded to lowercase, spells out `lit`.
fn tok_matches_ci(v: &Vec<char>, from: usize, to: usize, lit: &str) -> (r: bool)
    requires
        from <= to <= v@.len(),
    ensures
        r == (lower_seq(v@.subrange(from as int, to as int)) == lit@),
{
    let ghost tok = v@.subrange(from as int, to as int);
    let n = lit.unicode_len();
    if to - from != n {
        proof {
            assert(lower_seq(tok).len() == tok.len());
        }
        return false;
    }
    let mut i: usize = 0;
    while i < n
        invariant
            i <= n,
            from + n == to,
            to <= v@.len(),
            n == lit@.len(),
            tok == v@.subrange(from as int, to as int),
            forall|k: int| 0 <= k < i ==> lower_char(tok[k]) == lit@[k],
        decreases n - i,
    {
        let c = lower_char_x(v[from + i]);
        if c != lit.get_char(i) {
            proof {
                assert(lower_seq(tok)[i as int] == lower_char(tok[i as int]));
            }
            return false;
        }
        i += 1;
    }
    proof {
        assert(lower_seq(tok) =~= lit@);
    }
    true
}

/// Recognizes the scheme at the front of `v` and returns it with the
/// position where the remainder begins.
fn scheme_base(v: &Vec<char>) -> (r: (Scheme, usize))
    ensures
        r.0 == spec_scheme(v@),
        r.1 as int == rest_base(v@),
        r.1 <= v@.len(),
{
    let n = v.len();
    proof {
        assert(n == v@.len());
    }
    match find_char_from(v, ':', 0) {
        None => (Scheme::Https, 0),
        Some(i) => {
            proof {
                assert(v@.subrange(0, i as int) =~= v@.take(i as int));
                assert(lower_seq(v@.take(i as int)).len() == i);
            }
            if i == 0 {
                proof {
                    assert(lower_seq(v@.take(0)) =~= Seq::<char>::empty());
                }
                (Scheme::Https, i + 1)
            } else if tok_matches_ci(v, 0, i, "https") {
                (Scheme::Https, i + 1)
            } else if tok_matches_ci(v, 0, i, "http") {
                (Scheme::Http, i + 1)
            } else if tok_matches_ci(v, 0, i, "file") {
                (Scheme::File, i + 1)
            } else if tok_matches_ci(v, 0, i, "data") {
                (Scheme::Data, i + 1)
            } else {
                (Scheme::Https, 0)
            }
        },
    }
}

impl Scheme {
    /// Splits a raw URL into its scheme and the remainder that holds host
    /// and path. An unknown token before the colon is no scheme: the whole
    /// string, colon included, is the remainder then.
    pub fn extract<'a>(url: &'a str) -> (r: (Scheme, &'a str))
        ensures
            r.0 == spec_scheme(url@),
            r.1@ == url@.skip(rest_base(url@)),
    {
        let v = to_char_vec(url);
        let (scheme, base) = scheme_base(&v);
        let rest = url.substring_char(base, url.unicode_len());
        proof {
            assert(url@.subrange(base as int, url@.len() as int) =~= url@.skip(base as int));
        }
        (scheme, rest)
    }
}

/// A resolved URL: an immutable record of scheme, hostname, dial target,
/// path and port. `host` is kept consistent with `hostname` and `port`, and
/// `path` always begins with `/`.
pub struct Url {
    pub scheme: Scheme,
    pub hostname: String,
    pub host: String,
    pub path: String,
    pub port: u16,
}

impl Url {
    /// The record's internal consistency: the path is never empty and starts
    /// with `/`, and the dial target is derived from hostname and port.
    pub open spec fn wf(self) -> bool {
        &&& self.path@.len() > 0
        &&& self.path@[0] == '/'
        &&& self.host@ == self.hostname@ + seq![':'] + dec_str(self.port as int)
    }

    /// Resolves a raw URL string into its components. Fails exactly when an
    /// explicit port is written and is not a decimal 16-bit unsigned integer.
    pub fn new(url: &str) -> (r: Result<Url, FetchError>)
        ensures
            match r {
                Ok(u) => {
                    &&& port_ok(url@)
                    &&& u.scheme == spec_scheme(url@)
                    &&& u.hostname@ == spec_hostname(url@)
                    &&& u.port == spec_port(url@)
                    &&& u.host@ == spec_host(url@)
                    &&& u.path@ == spec_path(url@)
                    &&& u.wf()
                },
                Err(e) => !port_ok(url@) && e == FetchError::Config(ConfigError::InvalidPort),
            },
    {
        let v = to_char_vec(url);
        let (scheme, base) = scheme_base(&v);
        let hs = skip_char_run_x(&v, '/', base);
        let he = match find_char_from(&v, '/', hs) {
            Some(k) => k,
            None => v.len(),
        };
        proof {
            assert(hs as int == host_start(url@));
            assert(he as int == host_end(url@));
        }
        let mut hn_end = he;
        let mut port: u16 = if scheme == Scheme::Https {
            443
        } else {
            80
        };
        match find_char_from(&v, ':', hs) {
            Some(p) => {
                if p < he {
                    match parse_dec_bounded(&v, p + 1, he, 65535) {
                        Some(x) => {
                            hn_end = p;
                            port = x as u16;
                        },
                        None => {
                            return Err(FetchError::Config(ConfigError::InvalidPort));
                        },
                    }
                }
            },
            None => {},
        }
        let hostname = string_of_range(&v, hs, hn_end);
        let mut host = hostname.clone();
        push_char(&mut host, ':');
        push_dec_u16(&mut host, port);
        let mut path = String::new();
        push_char(&mut path, '/');
        if he < v.len() {
            push_range(&mut path, &v, he + 1, v.len());
        }
        proof {
            assert(host@ =~= spec_hostname(url@) + seq![':'] + dec_str(port as int));
            assert(path@ =~= spec_path(url@));
        }
        Ok(Url { scheme, hostname, host, path, port })
    }
}

} // verus!
