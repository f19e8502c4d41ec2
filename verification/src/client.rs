//! The package-index client's errors, its command line, how it
//! authenticates, and how it judges a token endpoint's answer.

use vstd::prelude::*;

use crate::text::{
    ascii_lower, ascii_lower_char, lemma_rfind_char, rfind_char, rfind_in,
};
use crate::text::{chars_of, decimal, push_decimal, push_str, string_of, trim, trim_bounds, trim_end_char, trim_end_char_len};

verus! {

/// Why a sigma-updates API call failed.
#[derive(Debug)]
pub enum ClientError {
    Http(String),
    Status { status: u16, body: String },
    Json(String),
    Io(String),
    Message(String),
}

impl ClientError {
    /// The error's text, as the client reports it.
    pub fn message(&self) -> (r: String)
        ensures
            r@ == match self {
                ClientError::Http(m) => "http error: "@ + m@,
                ClientError::Status { status, body } => "unexpected status "@ + decimal(
                    *status as nat,
                ) + ": "@ + body@,
                ClientError::Json(m) => "json error: "@ + m@,
                ClientError::Io(m) => "io error: "@ + m@,
                ClientError::Message(m) => m@,
            },
    {
        match self {
            ClientError::Http(m) => {
                let mut out = "http error: ".to_string();
                push_str(&mut out, m.as_str());
                out
            },
            ClientError::Status { status, body } => {
                let mut out = "unexpected status ".to_string();
                push_decimal(&mut out, *status as u64);
                push_str(&mut out, ": ");
                push_str(&mut out, body.as_str());
                out
            },
            ClientError::Json(m) => {
                let mut out = "json error: ".to_string();
                push_str(&mut out, m.as_str());
                out
            },
            ClientError::Io(m) => {
                let mut out = "io error: ".to_string();
                push_str(&mut out, m.as_str());
                out
            },
            ClientError::Message(m) => m.clone(),
        }
    }
}

/// `str::trim`.
pub fn trimmed(s: &str) -> (r: String)
    ensures
        r@ == trim(s@),
{
    let cs = chars_of(s);
    let (a, b) = trim_bounds(cs.as_slice(), 0, cs.len());
    string_of(cs.as_slice(), a, b)
}

/// The Keycloak token endpoint of an issuer: the issuer trimmed, without
/// trailing slashes, then `/protocol/openid-connect/token`.
pub open spec fn token_url_of(issuer: Seq<char>) -> Seq<char> {
    trim_end_char(trim(issuer), '/') + "/protocol/openid-connect/token"@
}

/// Build a Keycloak token endpoint URL from an issuer base
/// (`https://.../realms/multcorp` to `.../protocol/openid-connect/token`).
pub fn token_url_from_issuer(issuer: &str) -> (r: String)
    ensures
        r@ == token_url_of(issuer@),
{
    let t = trimmed(issuer);
    let cs = chars_of(t.as_str());
    let e = trim_end_char_len(cs.as_slice(), cs.len(), '/');
    proof {
        assert(cs@.subrange(0, cs@.len() as int) =~= cs@);
    }
    let mut out = string_of(cs.as_slice(), 0, e);
    push_str(&mut out, "/protocol/openid-connect/token");
    out
}

/// A setting's trimmed value, or `None` when unset or blank.
pub open spec fn present_spec(value: Option<String>) -> Option<Seq<char>> {
    match value {
        Some(s) => if trim(s@).len() > 0 {
            Some(trim(s@))
        } else {
            None
        },
        None => None,
    }
}

/// Trimmed value, or `None` when unset or blank.
pub fn present(value: &Option<String>) -> (r: Option<String>)
    ensures
        match r {
            Some(s) => present_spec(*value) == Some(s@),
            None => present_spec(*value) is None,
        },
{
    match value {
        Some(s) => {
            let t = trimmed(s.as_str());
            if t.as_str().is_empty() {
                None
            } else {
                Some(t)
            }
        },
        None => None,
    }
}

/// What the command line was asked to do.
#[derive(Debug)]
pub enum Command {
    /// List packages published on the server.
    List,
    /// Check that local .deb dependencies are satisfied by the remote index.
    Check { paths: Vec<String> },
    /// Publish local .deb packages (dependencies first; refused when some
    /// are missing).
    Push { paths: Vec<String>, allow_missing_deps: bool },
    /// Delete a published package by filename.
    Delete { filename: String },
}

/// Global options plus the selected subcommand.
#[derive(Debug)]
pub struct Cli {
    /// Base URL of the updates service or of the identity `/api` proxy.
    pub url: Option<String>,
    /// Shared secret for direct publish/delete.
    pub token: Option<String>,
    /// OIDC token endpoint (client credentials); overrides the issuer.
    pub oidc_token_url: Option<String>,
    /// OIDC issuer the token endpoint is derived from.
    pub oidc_issuer: Option<String>,
    /// OIDC confidential client id.
    pub oidc_client_id: Option<String>,
    /// OIDC confidential client secret.
    pub oidc_client_secret: Option<String>,
    pub command: Command,
}

/// How the command line authenticates.
#[derive(Debug)]
pub enum AuthPlan {
    /// The shared internal token, if one is set.
    Token(Option<String>),
    /// An OIDC client-credentials exchange at `token_url`.
    ClientCredentials { token_url: String, client_id: String, client_secret: String },
}

/// Whether any OIDC option is set.
pub open spec fn uses_oidc(c: Cli) -> bool {
    present_spec(c.oidc_client_id) is Some || present_spec(c.oidc_client_secret) is Some
        || present_spec(c.oidc_token_url) is Some || present_spec(c.oidc_issuer) is Some
}

pub const MISSING_CLIENT_ID: &'static str = "OIDC auth requires --oidc-client-id / SIGMA_OIDC_CLIENT_ID";

pub const MISSING_CLIENT_SECRET: &'static str =
    "OIDC auth requires --oidc-client-secret / SIGMA_OIDC_CLIENT_SECRET";

pub const MISSING_TOKEN_URL: &'static str =
    "OIDC auth requires --oidc-token-url / SIGMA_OIDC_TOKEN_URL or --oidc-issuer / SIGMA_OIDC_ISSUER";

pub const DEFAULT_BASE_URL: &'static str = "http://127.0.0.1:8080";

impl Cli {
    /// Base URL of the service (default: the local dev server).
    pub fn base_url(&self) -> (r: String)
        ensures
            r@ == match present_spec(self.url) {
                Some(u) => u,
                None => DEFAULT_BASE_URL@,
            },
    {
        match present(&self.url) {
            Some(u) => u,
            None => DEFAULT_BASE_URL.to_string(),
        }
    }

    /// How to authenticate: an OIDC client-credentials exchange when any
    /// OIDC option is set (the client id, the secret and a token endpoint
    /// are then required, the endpoint given or derived from the issuer),
    /// otherwise the shared internal token.
    pub fn auth_plan(&self) -> (r: Result<AuthPlan, String>)
        ensures
            !uses_oidc(*self) ==> (r matches Ok(AuthPlan::Token(t)) && match t {
                Some(s) => present_spec(self.token) == Some(s@),
                None => present_spec(self.token) is None,
            }),
            uses_oidc(*self) ==> match r {
                Ok(AuthPlan::ClientCredentials { token_url, client_id, client_secret }) => {
                    &&& present_spec(self.oidc_client_id) == Some(client_id@)
                    &&& present_spec(self.oidc_client_secret) == Some(client_secret@)
                    &&& match present_spec(self.oidc_token_url) {
                        Some(u) => token_url@ == u,
                        None => (present_spec(self.oidc_issuer) matches Some(i) && token_url@
                            == token_url_of(i)),
                    }
                },
                Ok(AuthPlan::Token(_)) => false,
                Err(e) => if present_spec(self.oidc_client_id) is None {
                    e@ == MISSING_CLIENT_ID@
                } else if present_spec(self.oidc_client_secret) is None {
                    e@ == MISSING_CLIENT_SECRET@
                } else {
                    &&& present_spec(self.oidc_token_url) is None
                    &&& present_spec(self.oidc_issuer) is None
                    &&& e@ == MISSING_TOKEN_URL@
                },
            },
    {
        let id = present(&self.oidc_client_id);
        let secret = present(&self.oidc_client_secret);
        let url = present(&self.oidc_token_url);
        let issuer = present(&self.oidc_issuer);
        if id.is_none() && secret.is_none() && url.is_none() && issuer.is_none() {
            return Ok(AuthPlan::Token(present(&self.token)));
        }
        let client_id = match id {
            Some(v) => v,
            None => return Err(MISSING_CLIENT_ID.to_string()),
        };
        let client_secret = match secret {
            Some(v) => v,
            None => return Err(MISSING_CLIENT_SECRET.to_string()),
        };
        let token_url = match url {
            Some(u) => u,
            None => match issuer {
                Some(i) => token_url_from_issuer(i.as_str()),
                None => return Err(MISSING_TOKEN_URL.to_string()),
            },
        };
        Ok(AuthPlan::ClientCredentials { token_url, client_id, client_secret })
    }
}

/// The body of a token response answered inside `200..300`; any other
/// status is a `Status` error carrying the status and the body.
pub fn check_token_status(status: u16, body: String) -> (r: Result<String, ClientError>)
    ensures
        200 <= status < 300 ==> r == Ok::<String, ClientError>(body),
        !(200 <= status < 300) ==> (r matches Err(ClientError::Status { status: s, body: b }) && s
            == status && b == body),
{
    if 200 <= status && status < 300 {
        Ok(body)
    } else {
        Err(ClientError::Status { status, body })
    }
}

pub const MISSING_ACCESS_TOKEN: &'static str = "token response missing access_token";

/// The access token of a parsed token response; a blank one is an error.
pub fn check_access_token(access_token: String) -> (r: Result<String, ClientError>)
    ensures
        trim(access_token@).len() > 0 ==> r == Ok::<String, ClientError>(access_token),
        trim(access_token@).len() == 0 ==> (r matches Err(ClientError::Message(m)) && m@
            == MISSING_ACCESS_TOKEN@),
{
    let t = trimmed(access_token.as_str());
    if t.as_str().is_empty() {
        Err(ClientError::Message(MISSING_ACCESS_TOKEN.to_string()))
    } else {
        Ok(access_token)
    }
}

/// What `Path::extension` gives for the file name `name`: the text after
/// its last `.`, unless that `.` is the first character (or there is none).
pub open spec fn extension_of(name: Seq<char>) -> Option<Seq<char>> {
    match rfind_char(name, '.', 0, name.len() as int) {
        Some(i) => if i > 0 {
            Some(name.subrange(i + 1, name.len() as int))
        } else {
            None
        },
        None => None,
    }
}

/// A file the client pushes from a directory: one whose extension is `deb`
/// in any ASCII case.
pub open spec fn is_deb_name(name: Seq<char>) -> bool {
    match extension_of(name) {
        Some(e) => e.len() == 3 && ascii_lower(e[0]) == 'd' && ascii_lower(e[1]) == 'e'
            && ascii_lower(e[2]) == 'b',
        None => false,
    }
}

/// Whether a directory entry named `name` is a `.deb` to collect.
pub fn is_deb_file_name(name: &str) -> (r: bool)
    ensures
        r == is_deb_name(name@),
{
    let cs = chars_of(name);
    proof {
        lemma_rfind_char(cs@, '.', 0, cs@.len() as int);
    }
    match rfind_in(cs.as_slice(), '.', 0, cs.len()) {
        Some(i) => {
            if i == 0 || cs.len() - (i + 1) != 3 {
                return false;
            }
            proof {
                let e = cs@.subrange(i + 1, cs@.len() as int);
                assert(e[0] == cs@[i + 1] && e[1] == cs@[i + 2] && e[2] == cs@[i + 3]);
            }
            ascii_lower_char(cs[i + 1]) == 'd' && ascii_lower_char(cs[i + 2]) == 'e'
                && ascii_lower_char(cs[i + 3]) == 'b'
        },
        None => false,
    }
}

pub const NO_DEB_FILES: &'static str = "no .deb files found";

/// The end of collecting `.deb` paths: an error when none was found.
pub fn collected_debs<P>(paths: Vec<P>) -> (r: Result<Vec<P>, ClientError>)
    ensures
        paths@.len() == 0 <==> r is Err,
        r matches Ok(v) ==> v@ == paths@,
        r matches Err(e) ==> e matches ClientError::Message(m) && m@ == NO_DEB_FILES@,
{
    if paths.len() == 0 {
        Err(ClientError::Message(NO_DEB_FILES.to_string()))
    } else {
        Ok(paths)
    }
}

} // verus!
