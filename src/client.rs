//! Request parameters of the remote list API: the bearer token, the
//! pagination cursor, and the signature over the sorted parameters.
use vstd::prelude::*;
use crate::store::opt_str_view;
use crate::text::{decimal_string, decimal_text, has_prefix, str_starts_with};

verus! {

/// What `md5::compute` gives for the UTF-8 bytes of `text`, as lower-case hex.
pub uninterp spec fn md5_hex(text: Seq<char>) -> Seq<char>;

/// Relies on `md5::compute` and its `LowerHex` form for the digest of `text`.
#[verifier::external_body]
fn md5_hex_digest(text: &str) -> (r: String)
    ensures
        r@ == md5_hex(text@),
{
    format!("{:x}", md5::compute(text.as_bytes()))
}

/// Relies on `chrono::Utc::now` for the current epoch seconds.
#[verifier::external_body]
fn now_epoch() -> (r: i64) {
    chrono::Utc::now().timestamp()
}

pub open spec fn bearer(token: Seq<char>) -> Seq<char> {
    if has_prefix(token, "Bearer "@) {
        token
    } else {
        "Bearer "@ + token
    }
}

pub open spec fn salt() -> Seq<char> {
    "dbbc3dd73364b4084c3a69346e0ce2b2"@
}

pub open spec fn pair_view(p: (String, String)) -> (Seq<char>, Seq<char>) {
    (p.0@, p.1@)
}

pub open spec fn pairs_view(ps: Seq<(String, String)>) -> Seq<(Seq<char>, Seq<char>)> {
    ps.map_values(|p: (String, String)| pair_view(p))
}

/// The request parameters before signing, sorted by name.
pub open spec fn base_params(slug: Option<Seq<char>>, updated_at: Option<i64>, now: i64) -> Seq<
    (Seq<char>, Seq<char>),
> {
    seq![("api_key"@, "flomo_web"@), ("app_version"@, "5.25.64"@)] + match slug {
        Some(s) => seq![("latest_slug"@, s)],
        None => Seq::empty(),
    } + match updated_at {
        Some(u) => seq![("latest_updated_at"@, decimal_text(u as int))],
        None => Seq::empty(),
    } + seq![
        ("limit"@, "200"@),
        ("platform"@, "mac"@),
        ("timestamp"@, decimal_text(now as int)),
        ("tz"@, "8:0"@),
        ("webp"@, "1"@),
    ]
}

/// `name=value` pairs joined by `&`.
pub open spec fn joined(ps: Seq<(Seq<char>, Seq<char>)>) -> Seq<char>
    decreases ps.len(),
{
    if ps.len() == 0 {
        Seq::empty()
    } else if ps.len() == 1 {
        ps[0].0 + "="@ + ps[0].1
    } else {
        joined(ps.drop_last()) + "&"@ + ps.last().0 + "="@ + ps.last().1
    }
}

/// The parameters with their signature appended.
pub open spec fn signed_params(slug: Option<Seq<char>>, updated_at: Option<i64>, now: i64) -> Seq<
    (Seq<char>, Seq<char>),
> {
    let base = base_params(slug, updated_at, now);
    base.push(("sign"@, md5_hex(joined(base) + salt())))
}

/// A client of the remote list API, holding its authorization header value.
pub struct FlomoClient {
    token: String,
}

fn pair(k: &str, v: String) -> (r: (String, String))
    ensures
        pair_view(r) == (k@, v@),
{
    (String::from_str(k), v)
}

fn join_params(ps: &Vec<(String, String)>) -> (r: String)
    ensures
        r@ == joined(pairs_view(ps@)),
{
    let ghost pv = pairs_view(ps@);
    let mut acc = String::new();
    let mut i: usize = 0;
    while i < ps.len()
        invariant
            i <= ps@.len(),
            pv == pairs_view(ps@),
            acc@ == joined(pv.subrange(0, i as int)),
        decreases ps@.len() - i,
    {
        proof {
            assert(pv.subrange(0, i + 1).drop_last() =~= pv.subrange(0, i as int));
        }
        if i > 0 {
            acc.append("&");
        }
        acc.append(ps[i].0.as_str());
        acc.append("=");
        acc.append(ps[i].1.as_str());
        proof {
            if i == 0 {
                assert(acc@ =~= joined(pv.subrange(0, 1)));
            } else {
                assert(acc@ =~= joined(pv.subrange(0, i + 1)));
            }
        }
        i = i + 1;
    }
    assert(pv.subrange(0, ps@.len() as int) =~= pv);
    acc
}

impl FlomoClient {
    /// The value sent as the authorization header.
    pub closed spec fn token_view(&self) -> Seq<char> {
        self.token@
    }

    /// A client for `token`, prefixed with `Bearer ` unless it already is.
    pub fn new(token: String) -> (r: FlomoClient)
        ensures
            r.token_view() == bearer(token@),
    {
        if str_starts_with(token.as_str(), "Bearer ") {
            FlomoClient { token }
        } else {
            FlomoClient { token: String::from_str("Bearer ").concat(token.as_str()) }
        }
    }

    /// The authorization header value.
    pub fn authorization(&self) -> (r: &str)
        ensures
            r@ == self.token_view(),
    {
        self.token.as_str()
    }

    /// The signed parameters of a request after the cursor, at epoch time `now`.
    pub fn params_at(&self, latest_slug: Option<&str>, latest_updated_at: Option<i64>, now: i64) -> (r:
        Vec<(String, String)>)
        ensures
            pairs_view(r@) == signed_params(
                opt_str_view(latest_slug),
                latest_updated_at,
                now,
            ),
    {
        let ghost sv = opt_str_view(latest_slug);
        let mut ps: Vec<(String, String)> = Vec::new();
        ps.push(pair("api_key", String::from_str("flomo_web")));
        ps.push(pair("app_version", String::from_str("5.25.64")));
        if let Some(s) = latest_slug {
            ps.push(pair("latest_slug", String::from_str(s)));
        }
        if let Some(u) = latest_updated_at {
            ps.push(pair("latest_updated_at", decimal_string(u)));
        }
        ps.push(pair("limit", String::from_str("200")));
        ps.push(pair("platform", String::from_str("mac")));
        ps.push(pair("timestamp", decimal_string(now)));
        ps.push(pair("tz", String::from_str("8:0")));
        ps.push(pair("webp", String::from_str("1")));
        proof {
            assert(pairs_view(ps@) =~= base_params(sv, latest_updated_at, now));
        }
        let text = join_params(&ps).concat("dbbc3dd73364b4084c3a69346e0ce2b2");
        let sign = md5_hex_digest(text.as_str());
        let ghost base = pairs_view(ps@);
        ps.push(pair("sign", sign));
        proof {
            assert(pairs_view(ps@) =~= base.push(("sign"@, md5_hex(joined(base) + salt()))));
        }
        ps
    }

    /// The signed parameters of a request after the cursor, stamped with
    /// the current time.
    pub fn get_params(&self, latest_slug: Option<&str>, latest_updated_at: Option<i64>) -> (r: Vec<
        (String, String),
    >)
        ensures
            exists|now: i64|
                pairs_view(r@) == #[trigger] signed_params(
                    opt_str_view(latest_slug),
                    latest_updated_at,
                    now,
                ),
    {
        let now = now_epoch();
        self.params_at(latest_slug, latest_updated_at, now)
    }
}

} // verus!
