use soliscloud::client::{
    build_api_request, detail_body, detail_topic, field_topic, inverter_detail_path,
    inverter_list_path, list_body, trim_base_url, ApiError,
};
use soliscloud::sign::Credentials;
use soliscloud::status_is_success;

#[test]
fn test_paths() {
    assert_eq!(inverter_list_path(), "/v1/api/inverterList");
    assert_eq!(inverter_detail_path(), "/v1/api/inverterDetail");
}

#[test]
fn test_list_body() {
    assert_eq!(list_body(), "{\"pageNo\":1,\"pageSize\":10}");
}

#[test]
fn test_detail_body_plain() {
    assert_eq!(detail_body("1234abc"), "{\"id\":\"1234abc\"}");
}

#[test]
fn test_detail_body_escapes() {
    assert_eq!(detail_body("a\"b"), "{\"id\":\"a\\\"b\"}");
    assert_eq!(detail_body("a\\b"), "{\"id\":\"a\\\\b\"}");
    assert_eq!(detail_body("a\nb"), "{\"id\":\"a\\nb\"}");
    assert_eq!(detail_body("a\u{1}b"), "{\"id\":\"a\\u0001b\"}");
}

#[test]
fn test_topics() {
    assert_eq!(detail_topic("dev1"), "soliscloud/inverter/dev1/detail");
    assert_eq!(
        field_topic("dev1", "home_load_today_energy_kwh"),
        "soliscloud/inverter/dev1/home_load_today_energy_kwh"
    );
}

#[test]
fn test_trim_base_url() {
    assert_eq!(trim_base_url("https://api.example.com/"), "https://api.example.com");
    assert_eq!(trim_base_url("https://api.example.com"), "https://api.example.com");
    assert_eq!(trim_base_url("x///"), "x");
    assert_eq!(trim_base_url(""), "");
}

#[test]
fn test_status_is_success() {
    assert!(status_is_success(200));
    assert!(status_is_success(204));
    assert!(status_is_success(299));
    assert!(!status_is_success(199));
    assert!(!status_is_success(300));
    assert!(!status_is_success(404));
    assert!(!status_is_success(500));
}

#[test]
fn test_build_api_request() {
    let c = Credentials { key: "KEY".to_string(), secret: "secret".to_string() };
    let body = list_body();
    let r = build_api_request(&c, "https://api.example.com", inverter_list_path(), body.as_str());
    assert_eq!(r.url, "https://api.example.com/v1/api/inverterList");
    assert_eq!(r.body, "{\"pageNo\":1,\"pageSize\":10}");
    assert_eq!(r.headers.content_type, "application/json;charset=utf-8");
    assert!(r.headers.authorization.starts_with("API KEY:"));
}

#[test]
fn test_api_error_describe() {
    assert_eq!(ApiError::Transport.describe(), "transport error");
    assert_eq!(ApiError::HttpStatus(500).describe(), "unexpected http status");
    assert_eq!(ApiError::Decode.describe(), "malformed response");
    assert_eq!(ApiError::Publish.describe(), "publish error");
    assert_eq!(ApiError::Signing.describe(), "signing error");
}
