use mail_bridge::bridge::prepare_config;
use mail_bridge::config::{resolve_base_url, resolve_token};

#[test]
fn base_url_strips_one_trailing_separator() {
    let r = resolve_base_url(Some("https://x/api/".to_string()));
    assert_eq!(r, "https://x/api");
}

#[test]
fn base_url_without_trailing_separator_is_unchanged() {
    let r = resolve_base_url(Some("https://x/api".to_string()));
    assert_eq!(r, "https://x/api");
}

#[test]
fn base_url_strips_every_trailing_separator_and_nothing_else() {
    assert_eq!(resolve_base_url(Some("https://x//api///".to_string())), "https://x//api");
    assert_eq!(resolve_base_url(Some("///".to_string())), "");
    assert_eq!(resolve_base_url(Some("".to_string())), "");
}

#[test]
fn base_url_default_applies_when_unset() {
    assert_eq!(resolve_base_url(None), "https://mail.dynmsl.com/api/public");
}

#[test]
fn token_present_is_returned_verbatim() {
    assert_eq!(resolve_token(Some("tok-1".to_string())), Ok("tok-1".to_string()));
}

#[test]
fn token_missing_is_a_descriptive_error() {
    let r = resolve_token(None);
    assert_eq!(r, Err("Missing DX888_MAIL_API_TOKEN".to_string()));
}

#[test]
fn missing_token_fails_config_before_any_request_exists() {
    // The transport is only ever handed a request built from an `ApiConfig`;
    // with no token there is no config, so no transport call can happen.
    let r = prepare_config(Some("https://x/api/".to_string()), None);
    assert_eq!(r.err(), Some("Missing DX888_MAIL_API_TOKEN".to_string()));
}

#[test]
fn config_with_token_resolves_base_and_token() {
    let cfg = prepare_config(Some("https://x/api/".to_string()), Some("tok".to_string())).unwrap();
    assert_eq!(cfg.base_url, "https://x/api");
    assert_eq!(cfg.token, "tok");
    let cfg2 = prepare_config(None, Some("tok".to_string())).unwrap();
    assert_eq!(cfg2.base_url, "https://mail.dynmsl.com/api/public");
}
