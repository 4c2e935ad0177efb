use powersession::account::{api_server_or_default, authorization_value, basic_authorization, connect_url, upload_url};

#[test]
fn basic_credentials_are_base64() {
    assert_eq!(basic_authorization("abc"), "Basic dXNlcjphYmM=");
    assert_eq!(basic_authorization(""), "Basic dXNlcjo=");
}

#[test]
fn authorization_prefix() {
    assert_eq!(authorization_value("xyz"), "Basic xyz");
}

#[test]
fn service_addresses() {
    assert_eq!(connect_url("https://asciinema.org", "id-1"), "https://asciinema.org/connect/id-1");
    assert_eq!(upload_url("https://asciinema.org"), "https://asciinema.org/api/asciicasts");
}

#[test]
fn default_service() {
    assert_eq!(api_server_or_default(None), "https://asciinema.org");
    assert_eq!(api_server_or_default(Some("https://example.org".to_string())), "https://example.org");
}
