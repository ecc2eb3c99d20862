//! The client of the instance's API: which requests the bot sends, and how
//! it reads what comes back. Nothing here touches the network.

use vstd::prelude::*;
use vstd::string::*;
use crate::text::{decimal, decimal_digits};

verus! {

/// Name of the environment variable that holds the instance's host name.
pub const INSTANCE: &'static str = "INSTANCE";

/// Name of the environment variable that holds the access token.
pub const ACCESS_TOKEN: &'static str = "ACCESS_TOKEN";

/// The characters that a header value may hold: the tab, and everything from
/// the space upwards but the delete character.
pub open spec fn is_header_char(c: char) -> bool {
    (c as u32 >= 32 && c as u32 != 127) || c as u32 == 9
}

/// Whether `s` can be sent as the value of a header.
pub open spec fn is_header_value(s: Seq<char>) -> bool {
    forall|i: int| 0 <= i < s.len() ==> is_header_char(#[trigger] s[i])
}

/// Asks `reqwest::header::HeaderValue::from_str` whether it accepts `value`.
///
/// Trusted: that function walks the bytes of `value` and refuses it at the
/// first byte below 32 other than the tab, or equal to 127. A character below
/// 128 is one byte of the same number, and the bytes of any other character
/// are all 128 or more, so this is `is_header_value` of the characters.
#[verifier::external_body]
fn header_value_accepts(value: &str) -> (ok: bool)
    ensures
        ok == is_header_value(value@),
{
    reqwest::header::HeaderValue::from_str(value).is_ok()
}

/// Why no client could be made.
#[derive(Debug, Clone, Copy, PartialEq, Eq, Structural)]
pub enum ClientError {
    /// The environment names no instance.
    NoInstance,
    /// The environment holds no access token.
    NoAccessToken,
    /// The access token holds a character that no header value may hold.
    BadAccessToken,
}

/// The text that tells a user about each error.
pub open spec fn error_text(error: ClientError) -> Seq<char> {
    match error {
        ClientError::NoInstance => "No `INSTANCE` environment variable"@,
        ClientError::NoAccessToken => "No `ACCESS_TOKEN` environment variable"@,
        ClientError::BadAccessToken => "Failed to convert string to header value"@,
    }
}

impl ClientError {
    /// What to tell the user.
    pub fn message(&self) -> (r: String)
        ensures
            r@ == error_text(*self),
    {
        match self {
            ClientError::NoInstance => String::from_str("No `INSTANCE` environment variable"),
            ClientError::NoAccessToken => String::from_str(
                "No `ACCESS_TOKEN` environment variable",
            ),
            ClientError::BadAccessToken => String::from_str(
                "Failed to convert string to header value",
            ),
        }
    }
}

/// The value of the `Authorization` header for an access token.
pub open spec fn bearer(access_token: Seq<char>) -> Seq<char> {
    "Bearer "@ + access_token
}

/// A token gives a header that can be sent if and only if the token itself
/// could be sent as one.
pub proof fn lemma_bearer_header(access_token: Seq<char>)
    ensures
        is_header_value(bearer(access_token)) <==> is_header_value(access_token),
{
    reveal_strlit("Bearer ");
    let header = bearer(access_token);
    if is_header_value(header) {
        assert forall|i: int| 0 <= i < access_token.len() implies is_header_char(
            #[trigger] access_token[i],
        ) by {
            assert(header[i + 7] == access_token[i]);
        }
    }
    if is_header_value(access_token) {
        assert forall|i: int| 0 <= i < header.len() implies is_header_char(#[trigger] header[i]) by {
            if i >= 7 {
                assert(header[i] == access_token[i - 7]);
            }
        }
    }
}

/// The address of an API path on an instance.
pub open spec fn api_address(instance: Seq<char>, version: u32, path: Seq<char>) -> Seq<char> {
    "https://"@ + instance + "/api/v"@ + decimal_digits(version as nat) + "/"@ + path
}

/// Client to the API of one instance.
pub struct Mastodon {
    /// Instance domain name.
    instance: String,
    /// Value of the `Authorization` header that goes with every request.
    authorization: String,
}

/// A client as its two texts.
pub ghost struct MastodonView {
    pub instance: Seq<char>,
    pub authorization: Seq<char>,
}

impl View for Mastodon {
    type V = MastodonView;

    closed spec fn view(&self) -> MastodonView {
        MastodonView { instance: self.instance@, authorization: self.authorization@ }
    }
}

impl Mastodon {
    /// The authorization of a client is a header value.
    #[verifier::type_invariant]
    spec fn authorized(self) -> bool {
        is_header_value(self.authorization@)
    }

    /// Creates a client for `instance` that presents `access_token` as a
    /// bearer token. The token is refused if it holds a character that no
    /// header value may hold.
    pub fn new(instance: &str, access_token: &str) -> (r: Result<Mastodon, ClientError>)
        ensures
            r is Ok <==> is_header_value(access_token@),
            match r {
                Ok(client) => client@ == (MastodonView {
                    instance: instance@,
                    authorization: bearer(access_token@),
                }),
                Err(error) => error == ClientError::BadAccessToken,
            },
    {
        let mut authorization: String = String::from_str("Bearer ");
        authorization.append(access_token);
        proof {
            lemma_bearer_header(access_token@);
        }
        if header_value_accepts(authorization.as_str()) {
            Ok(Mastodon { instance: String::from_str(instance), authorization })
        } else {
            Err(ClientError::BadAccessToken)
        }
    }

    /// Creates a client from what the environment holds under `INSTANCE` and
    /// `ACCESS_TOKEN`. The instance is looked at first.
    pub fn from_env(instance: Option<String>, access_token: Option<String>) -> (r: Result<
        Mastodon,
        ClientError,
    >)
        ensures
            match r {
                Ok(client) => {
                    &&& instance is Some
                    &&& access_token is Some
                    &&& is_header_value(access_token->0@)
                    &&& client@ == (MastodonView {
                        instance: instance->0@,
                        authorization: bearer(access_token->0@),
                    })
                },
                Err(ClientError::NoInstance) => instance is None,
                Err(ClientError::NoAccessToken) => instance is Some && access_token is None,
                Err(ClientError::BadAccessToken) => {
                    &&& instance is Some
                    &&& access_token is Some
                    &&& !is_header_value(access_token->0@)
                },
            },
    {
        match instance {
            None => Err(ClientError::NoInstance),
            Some(instance) => match access_token {
                None => Err(ClientError::NoAccessToken),
                Some(access_token) => Mastodon::new(instance.as_str(), access_token.as_str()),
            },
        }
    }

    /// The instance's domain name.
    pub fn instance(&self) -> (r: &str)
        ensures
            r@ == self@.instance,
    {
        self.instance.as_str()
    }

    /// The value of the `Authorization` header to send with every request.
    pub fn authorization(&self) -> (r: &str)
        ensures
            r@ == self@.authorization,
            is_header_value(r@),
    {
        proof {
            use_type_invariant(self);
        }
        self.authorization.as_str()
    }

    /// Get API URL from instance and API path.
    pub fn api_url(&self, version: u32, path: &str) -> (r: String)
        ensures
            r@ == api_address(self@.instance, version, path@),
    {
        let mut r: String = String::from_str("https://");
        r.append(self.instance.as_str());
        r.append("/api/v");
        r.append(decimal(version).as_str());
        r.append("/");
        r.append(path);
        r
    }
}

/// The method of a request.
#[derive(Debug, Clone, Copy, PartialEq, Eq, Structural)]
pub enum Method {
    Get,
    Post,
    Delete,
}

/// What a request carries.
#[derive(Debug, PartialEq, Eq)]
pub enum Body {
    /// Nothing.
    Empty,
    /// A multipart form with one part, named `name`: the file at `path`.
    File { name: String, path: String },
    /// A JSON object with the text of a status and the media attached to it.
    Status { status: String, media_ids: Vec<String> },
}

/// A request to the instance. Each goes out with the client's authorization.
#[derive(Debug, PartialEq, Eq)]
pub struct Request {
    pub method: Method,
    pub url: String,
    pub body: Body,
}

/// The texts of a vector of strings.
pub open spec fn texts(strings: Seq<String>) -> Seq<Seq<char>> {
    strings.map_values(|s: String| s@)
}

/// A body as plain values.
pub ghost enum BodyView {
    Empty,
    File { name: Seq<char>, path: Seq<char> },
    Status { status: Seq<char>, media_ids: Seq<Seq<char>> },
}

impl View for Body {
    type V = BodyView;

    open spec fn view(&self) -> BodyView {
        match self {
            Body::Empty => BodyView::Empty,
            Body::File { name, path } => BodyView::File { name: name@, path: path@ },
            Body::Status { status, media_ids } => BodyView::Status {
                status: status@,
                media_ids: texts(media_ids@),
            },
        }
    }
}

/// A request as plain values.
pub ghost struct RequestView {
    pub method: Method,
    pub url: Seq<char>,
    pub body: BodyView,
}

impl View for Request {
    type V = RequestView;

    open spec fn view(&self) -> RequestView {
        RequestView { method: self.method, url: self.url@, body: self.body@ }
    }
}

/// The request that uploads the file at `path` to `instance`.
pub open spec fn upload_of(instance: Seq<char>, path: Seq<char>) -> RequestView {
    RequestView {
        method: Method::Post,
        url: api_address(instance, 2, "media"@),
        body: BodyView::File { name: "file"@, path },
    }
}

/// The number of media that go with a status.
pub const MEDIA_PER_STATUS: usize = 2;

/// What the instance answers to an upload.
#[derive(Debug, PartialEq, Eq)]
pub struct MediaResponse {
    pub id: String,
    pub url: String,
}

impl Mastodon {
    /// Upload media: one request for each path, in the order of the paths.
    ///
    /// Does not post a status.
    pub fn upload_media(&self, paths: &[String]) -> (r: Vec<Request>)
        requires
            paths@.len() == MEDIA_PER_STATUS,
        ensures
            r@.len() == paths@.len(),
            forall|i: int|
                0 <= i < paths@.len() ==> (#[trigger] r@[i])@ == upload_of(
                    self@.instance,
                    paths@[i]@,
                ),
    {
        let mut r: Vec<Request> = Vec::new();
        let mut i: usize = 0;
        while i < paths.len()
            invariant
                i <= paths@.len(),
                r@.len() == i,
                forall|j: int|
                    0 <= j < i ==> (#[trigger] r@[j])@ == upload_of(self@.instance, paths@[j]@),
            decreases paths.len() - i,
        {
            r.push(
                Request {
                    method: Method::Post,
                    url: self.api_url(2, "media"),
                    body: Body::File { name: String::from_str("file"), path: paths[i].clone() },
                },
            );
            i = i + 1;
        }
        r
    }

    /// Post a status with already-uploaded media, given ids.
    pub fn post_media_status(&self, text: &str, media_ids: &[String]) -> (r: Request)
        requires
            media_ids@.len() == MEDIA_PER_STATUS,
        ensures
            r@ == (RequestView {
                method: Method::Post,
                url: api_address(self@.instance, 1, "statuses"@),
                body: BodyView::Status { status: text@, media_ids: texts(media_ids@) },
            }),
    {
        let mut ids: Vec<String> = Vec::new();
        let mut i: usize = 0;
        while i < media_ids.len()
            invariant
                i <= media_ids@.len(),
                texts(ids@) == texts(media_ids@).subrange(0, i as int),
            decreases media_ids.len() - i,
        {
            let ghost before: Seq<Seq<char>> = texts(ids@);
            ids.push(media_ids[i].clone());
            assert(texts(ids@) =~= before.push(media_ids@[i as int]@));
            assert(texts(ids@) =~= texts(media_ids@).subrange(0, i + 1));
            i = i + 1;
        }
        assert(texts(media_ids@).subrange(0, i as int) =~= texts(media_ids@));
        Request {
            method: Method::Post,
            url: self.api_url(1, "statuses"),
            body: Body::Status { status: String::from_str(text), media_ids: ids },
        }
    }

    /// Get all posted statuses of an account.
    pub fn get_statuses(&self, account_id: &str) -> (r: Request)
        ensures
            r@ == (RequestView {
                method: Method::Get,
                url: api_address(self@.instance, 1, "accounts/"@ + account_id@ + "/statuses"@),
                body: BodyView::Empty,
            }),
    {
        let mut path: String = String::from_str("accounts/");
        path.append(account_id);
        path.append("/statuses");
        Request { method: Method::Get, url: self.api_url(1, path.as_str()), body: Body::Empty }
    }

    /// Delete existing status.
    pub fn delete_status(&self, status_id: &str) -> (r: Request)
        ensures
            r@ == (RequestView {
                method: Method::Delete,
                url: api_address(self@.instance, 1, "statuses/"@ + status_id@),
                body: BodyView::Empty,
            }),
    {
        let mut path: String = String::from_str("statuses/");
        path.append(status_id);
        Request { method: Method::Delete, url: self.api_url(1, path.as_str()), body: Body::Empty }
    }
}

/// The ids of uploaded media, in the order of the answers.
pub fn media_ids(responses: Vec<MediaResponse>) -> (r: Vec<String>)
    ensures
        r@.len() == responses@.len(),
        forall|i: int| 0 <= i < responses@.len() ==> (#[trigger] r@[i])@ == responses@[i].id@,
{
    let mut r: Vec<String> = Vec::new();
    for response in it: responses
        invariant
            it.seq() == responses@,
            r@.len() == it.index(),
            forall|i: int| 0 <= i < r@.len() ==> (#[trigger] r@[i])@ == responses@[i].id@,
    {
        r.push(response.id);
    }
    r
}

/// What the status code of an answer means for the run.
#[derive(Debug, Clone, Copy, PartialEq, Eq, Structural)]
pub enum Outcome {
    /// The request was served.
    Success,
    /// The instance serves no more requests for now (429).
    RateLimited,
    /// The instance refused the request, or failed (400 to 599).
    Failed,
}

/// The meaning of a status code: too many requests comes first, then the
/// client and server errors; every other code is a success.
pub open spec fn outcome_of(code: u16) -> Outcome {
    if code == 429 {
        Outcome::RateLimited
    } else if 400 <= code < 600 {
        Outcome::Failed
    } else {
        Outcome::Success
    }
}

/// Reads the status code of an answer.
pub fn check_status(code: u16) -> (r: Outcome)
    ensures
        r == outcome_of(code),
{
    if code == 429 {
        Outcome::RateLimited
    } else if 400 <= code && code < 600 {
        Outcome::Failed
    } else {
        Outcome::Success
    }
}

} // verus!
