//! The static table: header fields that are known to both sides.
use vstd::prelude::*;
use vstd::string::StringSliceAdditionalSpecFns;

verus! {

/// How many entries there are.
pub const STATIC_LEN: usize = 99;

/// The names and values.
pub const STATIC_TABLE: [(&'static str, &'static str); 99] = [
    (":authority", ""),
    (":path", "/"),
    ("age", "0"),
    ("content-disposition", ""),
    ("content-length", "0"),
    ("cookie", ""),
    ("date", ""),
    ("etag", ""),
    ("if-modified-since", ""),
    ("if-none-match", ""),
    ("last-modified", ""),
    ("link", ""),
    ("location", ""),
    ("referer", ""),
    ("set-cookie", ""),
    (":method", "CONNECT"),
    (":method", "DELETE"),
    (":method", "GET"),
    (":method", "HEAD"),
    (":method", "OPTIONS"),
    (":method", "POST"),
    (":method", "PUT"),
    (":scheme", "http"),
    (":scheme", "https"),
    (":status", "103"),
    (":status", "200"),
    (":status", "304"),
    (":status", "404"),
    (":status", "503"),
    ("accept", "*/*"),
    ("accept", "application/dns-message"),
    ("accept-encoding", "gzip, deflate, br"),
    ("accept-ranges", "bytes"),
    ("access-control-allow-headers", "cache-control"),
    ("access-control-allow-headers", "content-type"),
    ("access-control-allow-origin", "*"),
    ("cache-control", "max-age=0"),
    ("cache-control", "max-age=2592000"),
    ("cache-control", "max-age=604800"),
    ("cache-control", "no-cache"),
    ("cache-control", "no-store"),
    ("cache-control", "public, max-age=31536000"),
    ("content-encoding", "br"),
    ("content-encoding", "gzip"),
    ("content-type", "application/dns-message"),
    ("content-type", "application/javascript"),
    ("content-type", "application/json"),
    ("content-type", "application/x-www-form-urlencoded"),
    ("content-type", "image/gif"),
    ("content-type", "image/jpeg"),
    ("content-type", "image/png"),
    ("content-type", "text/css"),
    ("content-type", "text/html; charset=utf-8"),
    ("content-type", "text/plain"),
    ("content-type", "text/plain;charset=utf-8"),
    ("range", "bytes=0-"),
    ("strict-transport-security", "max-age=31536000"),
    ("strict-transport-security", "max-age=31536000; includesubdomains"),
    ("strict-transport-security", "max-age=31536000; includesubdomains; preload"),
    ("vary", "accept-encoding"),
    ("vary", "origin"),
    ("x-content-type-options", "nosniff"),
    ("x-xss-protection", "1; mode=block"),
    (":status", "100"),
    (":status", "204"),
    (":status", "206"),
    (":status", "302"),
    (":status", "400"),
    (":status", "403"),
    (":status", "421"),
    (":status", "425"),
    (":status", "500"),
    ("accept-language", ""),
    ("access-control-allow-credentials", "FALSE"),
    ("access-control-allow-credentials", "TRUE"),
    ("access-control-allow-headers", "*"),
    ("access-control-allow-methods", "get"),
    ("access-control-allow-methods", "get, post, options"),
    ("access-control-allow-methods", "options"),
    ("access-control-expose-headers", "content-length"),
    ("access-control-request-headers", "content-type"),
    ("access-control-request-method", "get"),
    ("access-control-request-method", "post"),
    ("alt-svc", "clear"),
    ("authorization", ""),
    ("content-security-policy", "script-src 'none'; object-src 'none'; base-uri 'none'"),
    ("early-data", "1"),
    ("expect-ct", ""),
    ("forwarded", ""),
    ("if-range", ""),
    ("origin", ""),
    ("purpose", "prefetch"),
    ("server", ""),
    ("timing-allow-origin", "*"),
    ("upgrade-insecure-requests", "1"),
    ("user-agent", ""),
    ("x-forwarded-for", ""),
    ("x-frame-options", "deny"),
    ("x-frame-options", "sameorigin"),
];

/// The name in entry `i`.
pub open spec fn name_of(i: int) -> Seq<u8> {
    STATIC_TABLE@[i].0.spec_bytes()
}

/// The value in entry `i`.
pub open spec fn value_of(i: int) -> Seq<u8> {
    STATIC_TABLE@[i].1.spec_bytes()
}

/// The first entry from `i` on with this name and value.
pub open spec fn exact_from(name: Seq<u8>, value: Seq<u8>, i: nat) -> Option<nat>
    decreases 99 - i,
{
    if i >= 99 {
        None
    } else if name_of(i as int) == name && value_of(i as int) == value {
        Some(i)
    } else {
        exact_from(name, value, i + 1)
    }
}

/// The first entry from `i` on with this name.
pub open spec fn named_from(name: Seq<u8>, i: nat) -> Option<nat>
    decreases 99 - i,
{
    if i >= 99 {
        None
    } else if name_of(i as int) == name {
        Some(i)
    } else {
        named_from(name, i + 1)
    }
}

/// The first entry that agrees wholly, or else the first with this name; and
/// whether the value agrees.
pub open spec fn found(name: Seq<u8>, value: Seq<u8>) -> Option<(nat, bool)> {
    match exact_from(name, value, 0) {
        Some(i) => Some((i, true)),
        None => match named_from(name, 0) {
            Some(i) => Some((i, false)),
            None => None,
        },
    }
}

pub proof fn lemma_exact(name: Seq<u8>, value: Seq<u8>, i: nat)
    ensures
        exact_from(name, value, i) matches Some(k) ==> i <= k < 99 && name_of(k as int) == name
            && value_of(k as int) == value,
    decreases 99 - i,
{
    if i < 99 {
        lemma_exact(name, value, i + 1);
    }
}

pub proof fn lemma_named(name: Seq<u8>, i: nat)
    ensures
        named_from(name, i) matches Some(k) ==> i <= k < 99 && name_of(k as int) == name,
    decreases 99 - i,
{
    if i < 99 {
        lemma_named(name, i + 1);
    }
}

/// Whether two byte strings are equal.
pub fn same(a: &[u8], b: &[u8]) -> (r: bool)
    ensures
        r == (a@ == b@),
{
    if a.len() != b.len() {
        return false;
    }
    let mut i: usize = 0;
    while i < a.len()
        invariant
            i <= a@.len() == b@.len(),
            forall|k: int| 0 <= k < i ==> a@[k] == b@[k],
        decreases a@.len() - i,
    {
        if a[i] != b[i] {
            assert(a@[i as int] != b@[i as int]);
            return false;
        }
        i = i + 1;
    }
    assert(a@ =~= b@);
    true
}

/// The name and the value in an entry.
pub fn get(idx: usize) -> (r: Option<(&'static [u8], &'static [u8])>)
    ensures
        match r {
            Some((n, v)) => idx < 99 && n@ == name_of(idx as int) && v@ == value_of(idx as int),
            None => idx >= 99,
        },
{
    if idx < STATIC_LEN {
        let e: (&'static str, &'static str) = STATIC_TABLE[idx];
        Some((e.0.as_bytes(), e.1.as_bytes()))
    } else {
        None
    }
}

/// Looks for an entry with this name and value, or else with this name.
pub fn find(name: &[u8], value: &[u8]) -> (r: Option<(usize, bool)>)
    ensures
        match found(name@, value@) {
            Some((i, exact)) => r matches Some((j, x)) && j == i && x == exact && i < 99,
            None => r is None,
        },
{
    proof {
        lemma_exact(name@, value@, 0);
        lemma_named(name@, 0);
    }
    let mut first: Option<usize> = None;
    let mut i: usize = 0;
    while i < STATIC_LEN
        invariant
            i <= 99,
            exact_from(name@, value@, i as nat) == exact_from(name@, value@, 0),
            match first {
                None => named_from(name@, i as nat) == named_from(name@, 0),
                Some(k) => named_from(name@, 0) == Some(k as nat) && k < 99,
            },
        decreases 99 - i,
    {
        let e: (&'static str, &'static str) = STATIC_TABLE[i];
        if same(e.0.as_bytes(), name) {
            if same(e.1.as_bytes(), value) {
                return Some((i, true));
            }
            if first.is_none() {
                first = Some(i);
            }
        }
        i = i + 1;
    }
    match first {
        Some(k) => Some((k, false)),
        None => None,
    }
}

} // verus!
