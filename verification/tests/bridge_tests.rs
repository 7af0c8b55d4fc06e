use mail_bridge::bridge::{
    add_users_request, complete_add_users, complete_email_list, email_list_request,
    prepare_config, TransportOutcome,
};
use mail_bridge::codec::{encode_email_list_response, Email, EmailListResponse, User};

fn row(id: i32, to: &str) -> Email {
    Email {
        email_id: id,
        send_email: "from@svc.example".to_string(),
        send_name: "Svc".to_string(),
        subject: format!("hello {}", id),
        to_email: to.to_string(),
        to_name: "To".to_string(),
        create_time: "2024-06-01 10:00:00".to_string(),
        type_: 2,
        content: "<b>hi</b>".to_string(),
        text: "hi".to_string(),
        is_del: 0,
    }
}

#[test]
fn list_request_carries_url_headers_and_body() {
    let cfg = prepare_config(Some("https://x/api/".to_string()), Some("tok".to_string())).unwrap();
    let req = email_list_request(&cfg, "a@b.c");
    assert_eq!(req.url, "https://x/api/emailList");
    assert_eq!(req.authorization, "tok");
    assert_eq!(req.content_type, "application/json");
    assert_eq!(req.body, "{\"toEmail\":\"a@b.c\"}");
}

#[test]
fn add_request_carries_url_headers_and_body() {
    let cfg = prepare_config(None, Some("tok".to_string())).unwrap();
    let users = vec![
        User { email: "a@b".to_string(), password: "p1".to_string() },
        User { email: "c@d".to_string(), password: "p2".to_string() },
    ];
    let req = add_users_request(&cfg, &users);
    assert_eq!(req.url, "https://mail.dynmsl.com/api/public/addUser");
    assert_eq!(req.authorization, "tok");
    assert_eq!(req.content_type, "application/json");
    assert_eq!(
        req.body,
        "{\"list\":[{\"email\":\"a@b\",\"password\":\"p1\"},{\"email\":\"c@d\",\"password\":\"p2\"}]}"
    );
}

#[test]
fn stubbed_success_returns_exactly_the_decoded_rows_in_order() {
    let env = EmailListResponse {
        code: 200,
        message: String::new(),
        data: Some(vec![row(1, "a@b.c"), row(2, "a@b.c")]),
    };
    let body = encode_email_list_response(&env);
    let rows = complete_email_list(TransportOutcome::Body(body)).expect("success");
    assert_eq!(rows.len(), 2);
    assert_eq!(rows[0].email_id, 1);
    assert_eq!(rows[1].email_id, 2);
    assert_eq!(rows[0].subject, "hello 1");
    assert_eq!(rows[1].to_email, "a@b.c");
}

#[test]
fn null_data_yields_an_empty_sequence_not_an_error() {
    let r = complete_email_list(TransportOutcome::Body(
        "{\"code\":200,\"message\":\"\",\"data\":null}".to_string(),
    ));
    assert_eq!(r.map(|v| v.len()), Ok(0));
}

#[test]
fn omitted_data_yields_an_empty_sequence_not_an_error() {
    let r = complete_email_list(TransportOutcome::Body(
        "{\"code\":200,\"message\":\"\"}".to_string(),
    ));
    assert_eq!(r.map(|v| v.len()), Ok(0));
}

#[test]
fn non_200_code_fails_with_the_message_verbatim() {
    let r = complete_email_list(TransportOutcome::Body(
        "{\"code\":401,\"message\":\"invalid token\"}".to_string(),
    ));
    assert_eq!(r.err(), Some("invalid token".to_string()));
}

#[test]
fn transport_failure_is_surfaced_verbatim_with_no_decode() {
    let r = complete_email_list(TransportOutcome::Failure("connection refused".to_string()));
    let e = r.err().expect("fails");
    assert!(!e.is_empty());
    assert_eq!(e, "connection refused");
}

#[test]
fn undecodable_body_fails_with_the_decode_error() {
    let r = complete_email_list(TransportOutcome::Body("<html>502</html>".to_string()));
    assert_eq!(r.err(), Some("invalid response body".to_string()));
}

#[test]
fn add_users_success_is_the_fixed_acknowledgment() {
    let r = complete_add_users(TransportOutcome::Body(
        "{\"code\":200,\"message\":\"\",\"data\":{\"created\":2}}".to_string(),
    ));
    assert_eq!(r, Ok("Success".to_string()));
}

#[test]
fn add_users_failure_surfaces_the_message() {
    let r = complete_add_users(TransportOutcome::Body(
        "{\"code\":500,\"message\":\"duplicate user\"}".to_string(),
    ));
    assert_eq!(r.err(), Some("duplicate user".to_string()));
    let t = complete_add_users(TransportOutcome::Failure("timeout".to_string()));
    assert_eq!(t.err(), Some("timeout".to_string()));
}

#[test]
fn distinct_calls_with_distinct_stubs_do_not_interfere() {
    let env_a = EmailListResponse {
        code: 200,
        message: String::new(),
        data: Some(vec![row(10, "a@one.example")]),
    };
    let env_b = EmailListResponse {
        code: 200,
        message: String::new(),
        data: Some(vec![row(20, "b@two.example"), row(21, "b@two.example")]),
    };
    let body_a = encode_email_list_response(&env_a);
    let body_b = encode_email_list_response(&env_b);
    let ra = complete_email_list(TransportOutcome::Body(body_a)).unwrap();
    let rb = complete_email_list(TransportOutcome::Body(body_b)).unwrap();
    assert_eq!(ra.len(), 1);
    assert_eq!(rb.len(), 2);
    assert_eq!(ra[0].to_email, "a@one.example");
    assert_eq!(rb[0].to_email, "b@two.example");
    assert_eq!(rb[0].email_id, 20);
}
