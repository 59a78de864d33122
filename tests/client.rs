use afluencia::client::{classify_response, AfluenciaClient, WriteError, CONTENT_TYPE, WRITE_TIMEOUT_SECS};
use afluencia::line_protocol::{DataPoint, EncodeError, Value};

#[test]
fn generate_valid_base_url_with_individual_initialization_and_authentication() {
    let mut client = AfluenciaClient::new("hostname", 1234, "test");
    client
        .user(String::from("username"))
        .password(String::from("password"));

    assert_eq!(
        "http://hostname:1234/write?db=test&u=username&p=password",
        client.get_write_base_url()
    );
}

#[test]
fn url_without_credentials() {
    let client = AfluenciaClient::new("h", 1, "d");
    assert_eq!("http://h:1/write?db=d", client.get_write_base_url());
}

#[test]
fn url_with_user_only() {
    let mut client = AfluenciaClient::new("h", 1, "d");
    client.user(String::from("u"));
    assert_eq!("http://h:1/write?db=d&u=u", client.get_write_base_url());
}

#[test]
fn url_with_user_and_password() {
    let mut client = AfluenciaClient::new("h", 1, "d");
    client.password(String::from("p"));
    client.user(String::from("u"));
    assert_eq!("http://h:1/write?db=d&u=u&p=p", client.get_write_base_url());
}

#[test]
fn url_with_password_only() {
    let mut client = AfluenciaClient::new("h", 1, "d");
    client.password(String::from("p"));
    assert_eq!("http://h:1/write?db=d&p=p", client.get_write_base_url());
}

#[test]
fn url_with_tls_and_large_port() {
    let mut client = AfluenciaClient::new("db.example", 4294967295, "metrics");
    client.tls(true);
    assert_eq!(
        "https://db.example:4294967295/write?db=metrics",
        client.get_write_base_url()
    );
    client.tls(false);
    assert_eq!(
        "http://db.example:4294967295/write?db=metrics",
        client.get_write_base_url()
    );
}

#[test]
fn prepared_write_holds_url_and_line() {
    let client = AfluenciaClient::new("h", 8086, "d");
    let mut p = DataPoint::new("m");
    p.add_field("v", Value::Boolean(true));
    let req = client.prepare_write(p).ok().unwrap();
    assert_eq!("http://h:8086/write?db=d", req.url);
    assert_eq!("m v=true\n", req.body);
    assert_eq!("application/x-www-form-urlencoded", CONTENT_TYPE);
    assert_eq!(10, WRITE_TIMEOUT_SECS);
}

#[test]
fn prepared_write_of_point_without_fields_fails() {
    let client = AfluenciaClient::new("h", 8086, "d");
    let p = DataPoint::new("m");
    assert!(matches!(client.prepare_write(p), Err(EncodeError::NoFields)));
}

#[test]
fn status_204_is_success() {
    let r = classify_response(204, Vec::new());
    let resp = r.ok().unwrap();
    assert_eq!(204, resp.status);
    assert_eq!("", resp.body);
}

#[test]
fn other_status_is_rejection_with_status_and_body() {
    let r = classify_response(500, b"boom \xc3\xa9".to_vec());
    match r {
        Err(WriteError::Rejected(resp)) => {
            assert_eq!(500, resp.status);
            assert_eq!("boom \u{e9}", resp.body);
        }
        _ => panic!("expected a rejection"),
    }
    assert!(matches!(classify_response(200, Vec::new()), Err(WriteError::Rejected(_))));
}

#[test]
fn body_that_is_not_utf8_is_a_decoding_failure() {
    let r = classify_response(400, vec![0x66, 0xff, 0x66]);
    assert!(matches!(r, Err(WriteError::UndecodableBody { status: 400 })));
    let r = classify_response(204, vec![0xed, 0xa0, 0x80]);
    assert!(matches!(r, Err(WriteError::UndecodableBody { status: 204 })));
}
