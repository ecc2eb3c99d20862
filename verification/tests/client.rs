use mastodon::client::{
    check_status, media_ids, Body, ClientError, MediaResponse, Method, Outcome, Request,
    ACCESS_TOKEN, INSTANCE, MEDIA_PER_STATUS,
};
use mastodon::Mastodon;

fn client() -> Mastodon {
    Mastodon::new("esperanto.masto.host", "s3cr3t-token").unwrap()
}

fn strings(items: &[&str]) -> Vec<String> {
    items.iter().map(|s| s.to_string()).collect()
}

#[test]
fn new_keeps_instance_and_makes_a_bearer_header() {
    let c = Mastodon::new("example.org", "abc123").unwrap();
    assert_eq!(c.instance(), "example.org");
    assert_eq!(c.authorization(), "Bearer abc123");
}

#[test]
fn new_takes_an_empty_token() {
    let c = Mastodon::new("example.org", "").unwrap();
    assert_eq!(c.authorization(), "Bearer ");
}

#[test]
fn new_refuses_a_token_with_a_control_character() {
    assert_eq!(Mastodon::new("example.org", "abc\n").err(), Some(ClientError::BadAccessToken));
    assert_eq!(Mastodon::new("example.org", "a\rb").err(), Some(ClientError::BadAccessToken));
    assert_eq!(Mastodon::new("example.org", "\u{0}").err(), Some(ClientError::BadAccessToken));
    assert_eq!(Mastodon::new("example.org", "a\u{1f}").err(), Some(ClientError::BadAccessToken));
    assert_eq!(Mastodon::new("example.org", "a\u{7f}b").err(), Some(ClientError::BadAccessToken));
}

#[test]
fn new_takes_tab_space_and_characters_beyond_ascii() {
    assert_eq!(Mastodon::new("example.org", "a\tb").unwrap().authorization(), "Bearer a\tb");
    assert_eq!(Mastodon::new("example.org", "a b").unwrap().authorization(), "Bearer a b");
    assert_eq!(Mastodon::new("example.org", "~").unwrap().authorization(), "Bearer ~");
    assert_eq!(Mastodon::new("example.org", "ĉ\u{80}💚").unwrap().authorization(), "Bearer ĉ\u{80}💚");
}

#[test]
fn new_agrees_with_the_header_value_of_reqwest() {
    let mut code: u32 = 0;
    while code < 0x300 {
        if let Some(c) = char::from_u32(code) {
            let token = format!("a{}b", c);
            let header = format!("Bearer {}", token);
            let accepted = reqwest::header::HeaderValue::try_from(header).is_ok();
            assert_eq!(Mastodon::new("example.org", &token).is_ok(), accepted, "U+{:04X}", code);
        }
        code += 1;
    }
}

#[test]
fn authorization_is_a_header_value() {
    let c = Mastodon::new("example.org", "tok en\t1").unwrap();
    let value = reqwest::header::HeaderValue::from_str(c.authorization()).unwrap();
    assert_eq!(value.as_bytes(), "Bearer tok en\t1".as_bytes());
}

#[test]
fn instance_is_not_checked() {
    let c = Mastodon::new("not a host\n", "t").unwrap();
    assert_eq!(c.instance(), "not a host\n");
}

#[test]
fn environment_variables_are_named() {
    assert_eq!(INSTANCE, "INSTANCE");
    assert_eq!(ACCESS_TOKEN, "ACCESS_TOKEN");
}

#[test]
fn from_env_with_both_values() {
    let c = Mastodon::from_env(Some("example.org".to_string()), Some("abc".to_string())).unwrap();
    assert_eq!(c.instance(), "example.org");
    assert_eq!(c.authorization(), "Bearer abc");
}

#[test]
fn from_env_without_instance() {
    assert_eq!(Mastodon::from_env(None, Some("abc".to_string())).err(), Some(ClientError::NoInstance));
    assert_eq!(Mastodon::from_env(None, None).err(), Some(ClientError::NoInstance));
    assert_eq!(Mastodon::from_env(None, Some("\n".to_string())).err(), Some(ClientError::NoInstance));
}

#[test]
fn from_env_without_access_token() {
    assert_eq!(
        Mastodon::from_env(Some("example.org".to_string()), None).err(),
        Some(ClientError::NoAccessToken)
    );
}

#[test]
fn from_env_with_a_bad_access_token() {
    assert_eq!(
        Mastodon::from_env(Some("example.org".to_string()), Some("a\nb".to_string())).err(),
        Some(ClientError::BadAccessToken)
    );
}

#[test]
fn error_messages() {
    assert_eq!(ClientError::NoInstance.message(), "No `INSTANCE` environment variable");
    assert_eq!(ClientError::NoAccessToken.message(), "No `ACCESS_TOKEN` environment variable");
    assert_eq!(ClientError::BadAccessToken.message(), "Failed to convert string to header value");
}

#[test]
fn api_url_from_instance_version_and_path() {
    assert_eq!(client().api_url(2, "media"), "https://esperanto.masto.host/api/v2/media");
    assert_eq!(client().api_url(1, "statuses"), "https://esperanto.masto.host/api/v1/statuses");
    assert_eq!(client().api_url(0, ""), "https://esperanto.masto.host/api/v0/");
    assert_eq!(client().api_url(10, "a/b"), "https://esperanto.masto.host/api/v10/a/b");
    assert_eq!(
        client().api_url(u32::MAX, "x"),
        "https://esperanto.masto.host/api/v4294967295/x"
    );
}

#[test]
fn api_url_is_what_format_gives() {
    let c = Mastodon::new("mastodon.social", "t").unwrap();
    let mut version: u32 = 0;
    while version < 120 {
        let expected = format!("https://{}/api/v{}/{}", "mastodon.social", version, "media");
        assert_eq!(c.api_url(version, "media"), expected);
        version += 1;
    }
}

#[test]
fn media_per_status_is_two() {
    assert_eq!(MEDIA_PER_STATUS, 2);
}

#[test]
fn upload_media_gives_one_request_for_each_path() {
    let paths = strings(&["posts/next/12/esperanto.png", "posts/next/12/english.png"]);
    let requests = client().upload_media(&paths);
    assert_eq!(
        requests,
        vec![
            Request {
                method: Method::Post,
                url: "https://esperanto.masto.host/api/v2/media".to_string(),
                body: Body::File {
                    name: "file".to_string(),
                    path: "posts/next/12/esperanto.png".to_string(),
                },
            },
            Request {
                method: Method::Post,
                url: "https://esperanto.masto.host/api/v2/media".to_string(),
                body: Body::File {
                    name: "file".to_string(),
                    path: "posts/next/12/english.png".to_string(),
                },
            },
        ]
    );
}

#[test]
fn post_media_status_carries_text_and_ids() {
    let ids = strings(&["109", "110"]);
    let request = client().post_media_status("Lundo ðŸ’š\n\n#esperanto [12]", &ids);
    assert_eq!(
        request,
        Request {
            method: Method::Post,
            url: "https://esperanto.masto.host/api/v1/statuses".to_string(),
            body: Body::Status {
                status: "Lundo ðŸ’š\n\n#esperanto [12]".to_string(),
                media_ids: strings(&["109", "110"]),
            },
        }
    );
}

#[test]
fn get_statuses_asks_for_the_statuses_of_the_account() {
    assert_eq!(
        client().get_statuses("1093"),
        Request {
            method: Method::Get,
            url: "https://esperanto.masto.host/api/v1/accounts/1093/statuses".to_string(),
            body: Body::Empty,
        }
    );
    assert_eq!(
        client().get_statuses("").url,
        "https://esperanto.masto.host/api/v1/accounts//statuses"
    );
}

#[test]
fn delete_status_names_the_status() {
    assert_eq!(
        client().delete_status("77"),
        Request {
            method: Method::Delete,
            url: "https://esperanto.masto.host/api/v1/statuses/77".to_string(),
            body: Body::Empty,
        }
    );
}

#[test]
fn media_ids_in_the_order_of_the_answers() {
    let responses = vec![
        MediaResponse { id: "22".to_string(), url: "https://files.example/22.png".to_string() },
        MediaResponse { id: "7".to_string(), url: "https://files.example/7.png".to_string() },
        MediaResponse { id: "22".to_string(), url: String::new() },
    ];
    assert_eq!(media_ids(responses), strings(&["22", "7", "22"]));
    assert_eq!(media_ids(Vec::new()), Vec::<String>::new());
}

#[test]
fn too_many_requests_is_rate_limited() {
    assert_eq!(check_status(429), Outcome::RateLimited);
}

#[test]
fn client_and_server_errors_fail() {
    assert_eq!(check_status(400), Outcome::Failed);
    assert_eq!(check_status(401), Outcome::Failed);
    assert_eq!(check_status(404), Outcome::Failed);
    assert_eq!(check_status(422), Outcome::Failed);
    assert_eq!(check_status(428), Outcome::Failed);
    assert_eq!(check_status(430), Outcome::Failed);
    assert_eq!(check_status(499), Outcome::Failed);
    assert_eq!(check_status(500), Outcome::Failed);
    assert_eq!(check_status(503), Outcome::Failed);
    assert_eq!(check_status(599), Outcome::Failed);
}

#[test]
fn other_codes_succeed() {
    assert_eq!(check_status(200), Outcome::Success);
    assert_eq!(check_status(202), Outcome::Success);
    assert_eq!(check_status(100), Outcome::Success);
    assert_eq!(check_status(302), Outcome::Success);
    assert_eq!(check_status(399), Outcome::Success);
    assert_eq!(check_status(600), Outcome::Success);
    assert_eq!(check_status(999), Outcome::Success);
    assert_eq!(check_status(0), Outcome::Success);
    assert_eq!(check_status(u16::MAX), Outcome::Success);
}

#[test]
fn check_status_agrees_with_the_status_code_of_reqwest() {
    let mut code: u16 = 100;
    while code < 1000 {
        let status = reqwest::StatusCode::from_u16(code).unwrap();
        let expected = if status == reqwest::StatusCode::TOO_MANY_REQUESTS {
            Outcome::RateLimited
        } else if status.is_client_error() || status.is_server_error() {
            Outcome::Failed
        } else {
            Outcome::Success
        };
        assert_eq!(check_status(code), expected, "{}", code);
        code += 1;
    }
}
