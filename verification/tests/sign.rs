use soliscloud::sign::{sign, sign_at, verify_signature, Credentials};

fn creds() -> Credentials {
    Credentials { key: "KEY".to_string(), secret: "secret".to_string() }
}

const TS1: &str = "Tue, 01 Jan 2030 00:00:00 +0000";
const TS2: &str = "Tue, 01 Jan 2030 00:00:01 +0000";

#[test]
fn test_content_md5_empty_body() {
    let h = sign_at(&creds(), "/v1/api/inverterList", b"", TS1);
    assert_eq!(h.content_md5, "1B2M2Y8AsgTpgAmY7PhCfg==");
}

#[test]
fn test_content_md5_known_body() {
    let h = sign_at(&creds(), "/v1/api/inverterList", b"hello world", TS1);
    assert_eq!(h.content_md5, "XrY7u+Ae7tCTyyK7j1rNww==");
}

#[test]
fn test_signature_known_vector() {
    let h = sign_at(&creds(), "/v1/api/inverterDetail", b"{\"id\":\"x\"}", TS1);
    assert_eq!(h.authorization, "API KEY:zw+U6lLe/h1HTFjZIxuzqjf+pp8=");
    assert_eq!(h.content_md5, "f5HPz3nqknGYUQT9dJj4qQ==");
    assert_eq!(h.date, TS1);
    assert_eq!(h.content_type, "application/json;charset=utf-8");
}

#[test]
fn test_sign_verify_roundtrip() {
    let c = creds();
    let path = "/v1/api/inverterDetail";
    let body = b"{\"id\":\"abc\"}";
    let h = sign_at(&c, path, body, TS1);
    let sig = h.authorization.rsplit(':').next().unwrap();
    assert!(verify_signature(&c, path, body, TS1, sig));
    assert!(!verify_signature(&c, path, body, TS2, sig));
    assert!(!verify_signature(&c, path, b"{\"id\":\"abd\"}", TS1, sig));
}

#[test]
fn test_resign_differs_but_both_verify() {
    let c = creds();
    let path = "/v1/api/inverterList";
    let body = b"{\"pageNo\":1,\"pageSize\":10}";
    let h1 = sign_at(&c, path, body, TS1);
    let h2 = sign_at(&c, path, body, TS2);
    assert_ne!(h1.authorization, h2.authorization);
    let s1 = h1.authorization.rsplit(':').next().unwrap();
    let s2 = h2.authorization.rsplit(':').next().unwrap();
    assert!(verify_signature(&c, path, body, TS1, s1));
    assert!(verify_signature(&c, path, body, TS2, s2));
}

#[test]
fn test_sign_now_shape() {
    let c = creds();
    let h = sign(&c, "/v1/api/inverterList", b"{}");
    assert!(h.date.ends_with("+0000"));
    assert!(h.authorization.starts_with("API KEY:"));
    assert_eq!(h.content_type, "application/json;charset=utf-8");
}
