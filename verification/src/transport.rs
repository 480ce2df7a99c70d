//! The request side of the cloud transport: the URLs and header values of the
//! typed HTTP client, built exactly, with path components percent-encoded.
//! The socket work — sending a request, reading a response — happens outside;
//! it takes these strings ready-made.

use vstd::prelude::*;

use crate::strutil::push_char;

verus! {

/// What percent-encoding a path component yields.  The encoding depends on
/// the characters alone.
pub uninterp spec fn url_encoded(s: Seq<char>) -> Seq<char>;

/// Percent-encodes a path component.
///
/// Relies on `urlencoding::encode`: every byte outside the unreserved set is
/// written as `%XX`; the result is a function of the input characters alone,
/// and an empty input stays empty.
#[verifier::external_body]
fn url_encode(s: &str) -> (r: String)
    ensures
        r@ == url_encoded(s@),
        s@.len() == 0 ==> r@.len() == 0,
{
    urlencoding::encode(s).into_owned()
}

/// `s` with every trailing `/` removed.
pub open spec fn spec_trim_trailing_slashes(s: Seq<char>) -> Seq<char>
    decreases s.len(),
{
    if s.len() > 0 && s.last() == '/' {
        spec_trim_trailing_slashes(s.drop_last())
    } else {
        s
    }
}

/// Drops every trailing `/` of a path or URL.
pub fn trim_trailing_slashes(s: &str) -> (r: String)
    ensures
        r@ == spec_trim_trailing_slashes(s@),
{
    let len = s.unicode_len();
    let mut end: usize = len;
    proof {
        assert(s@.subrange(0, len as int) =~= s@);
    }
    while end > 0 && s.get_char(end - 1) == '/'
        invariant
            len == s@.len(),
            0 <= end <= len,
            spec_trim_trailing_slashes(s@) == spec_trim_trailing_slashes(
                s@.subrange(0, end as int),
            ),
        decreases end,
    {
        proof {
            let cur = s@.subrange(0, end as int);
            assert(cur.last() == s@[end - 1]);
            assert(cur.drop_last() =~= s@.subrange(0, end - 1));
        }
        end = end - 1;
    }
    proof {
        let cur = s@.subrange(0, end as int);
        if end > 0 {
            assert(cur.last() == s@[end - 1]);
        }
        assert(spec_trim_trailing_slashes(cur) == cur);
    }
    crate::strutil::str_copy(s.substring_char(0, end))
}

/// The addressing half of the cloud client: base URL, user, bearer token.
/// It builds every URL and header value the cloud endpoints take.
pub struct ApiClient {
    pub base_url: String,
    pub username: String,
    pub token: String,
}

impl ApiClient {
    /// A client for `(base_url, username, token)`; trailing slashes of the
    /// base are dropped.
    pub fn new(base_url: &str, username: &str, token: &str) -> (r: ApiClient)
        ensures
            r.base_url@ == spec_trim_trailing_slashes(base_url@),
            r.username@ == username@,
            r.token@ == token@,
    {
        ApiClient {
            base_url: trim_trailing_slashes(base_url),
            username: crate::strutil::str_copy(username),
            token: crate::strutil::str_copy(token),
        }
    }

    /// The listing endpoint.
    pub fn files_url(&self) -> (r: String)
        ensures
            r@ == self.base_url@ + "/api/"@ + self.username@ + "/files"@,
    {
        let mut out = String::new();
        out.append(self.base_url.as_str());
        out.append("/api/");
        out.append(self.username.as_str());
        out.append("/files");
        proof {
            assert(out@ =~= self.base_url@ + "/api/"@ + self.username@ + "/files"@);
        }
        out
    }

    /// The endpoint of one file, its path percent-encoded.
    pub fn file_url(&self, path: &str) -> (r: String)
        ensures
            r@ == self.base_url@ + "/api/"@ + self.username@ + "/file/"@ + url_encoded(path@),
    {
        let encoded = url_encode(path);
        let mut out = String::new();
        out.append(self.base_url.as_str());
        out.append("/api/");
        out.append(self.username.as_str());
        out.append("/file/");
        out.append(encoded.as_str());
        proof {
            assert(out@ =~= self.base_url@ + "/api/"@ + self.username@ + "/file/"@ + url_encoded(
                path@));
        }
        out
    }

    /// The heartbeat endpoint.
    pub fn status_url(&self) -> (r: String)
        ensures
            r@ == self.base_url@ + "/api/"@ + self.username@ + "/agent-status"@,
    {
        let mut out = String::new();
        out.append(self.base_url.as_str());
        out.append("/api/");
        out.append(self.username.as_str());
        out.append("/agent-status");
        proof {
            assert(out@ =~= self.base_url@ + "/api/"@ + self.username@ + "/agent-status"@);
        }
        out
    }

    /// The push-channel bootstrap endpoint.
    pub fn sync_config_url(&self) -> (r: String)
        ensures
            r@ == self.base_url@ + "/api/"@ + self.username@ + "/sync-config"@,
    {
        let mut out = String::new();
        out.append(self.base_url.as_str());
        out.append("/api/");
        out.append(self.username.as_str());
        out.append("/sync-config");
        proof {
            assert(out@ =~= self.base_url@ + "/api/"@ + self.username@ + "/sync-config"@);
        }
        out
    }

    /// The `Authorization` header value every call carries.
    pub fn bearer(&self) -> (r: String)
        ensures
            r@ == "Bearer "@ + self.token@,
    {
        let mut out = String::new();
        out.append("Bearer ");
        out.append(self.token.as_str());
        proof {
            assert(out@ =~= "Bearer "@ + self.token@);
        }
        out
    }
}

/// The push channel's connection details, as the bootstrap endpoint returns
/// them.
pub struct RtdbConfig {
    pub rtdb_url: String,
    pub rtdb_auth: String,
    pub user_id: String,
}

/// The URL of the push channel's event stream.
pub fn rtdb_stream_url(rtdb_url: &str, user_id: &str, auth: &str) -> (r: String)
    ensures
        r@ == rtdb_url@ + "/mdflare/"@ + user_id@ + "/files.json?auth="@ + auth@,
{
    let mut out = String::new();
    out.append(rtdb_url);
    out.append("/mdflare/");
    out.append(user_id);
    out.append("/files.json?auth=");
    out.append(auth);
    proof {
        assert(out@ =~= rtdb_url@ + "/mdflare/"@ + user_id@ + "/files.json?auth="@ + auth@);
    }
    out
}

} // verus!
