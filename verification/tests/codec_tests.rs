use mail_bridge::codec::{
    decode_email, decode_email_list_response, decode_user, encode_email,
    encode_email_list_response, encode_user, Email, EmailListResponse, User,
};

fn sample_email() -> Email {
    Email {
        email_id: 17,
        send_email: "noreply@svc.example".to_string(),
        send_name: "Service".to_string(),
        subject: "Welcome \"friend\"".to_string(),
        to_email: "a@b.example".to_string(),
        to_name: "A. B\\C".to_string(),
        create_time: "2024-01-02 03:04:05".to_string(),
        type_: 7,
        content: "<p>line one</p>\nline two\ttabbed\u{1}</p>".to_string(),
        text: "plain ünïcode ✓".to_string(),
        is_del: 1,
    }
}

#[test]
fn user_wire_text_is_exact() {
    let u = User { email: "a@b".to_string(), password: "p w".to_string() };
    assert_eq!(encode_user(&u), "{\"email\":\"a@b\",\"password\":\"p w\"}");
}

#[test]
fn user_round_trips_field_for_field() {
    let u = User { email: "a@b.example".to_string(), password: "s3cr\"e\\t\n".to_string() };
    let wire = encode_user(&u);
    let back = decode_user(&wire).expect("decodes");
    assert_eq!(back.email, u.email);
    assert_eq!(back.password, u.password);
}

#[test]
fn email_round_trips_field_for_field() {
    let e = sample_email();
    let wire = encode_email(&e);
    assert!(wire.contains("\"type\":7"));
    assert!(wire.contains("\"isDel\":1"));
    let back = decode_email(&wire).expect("decodes");
    assert_eq!(back.email_id, e.email_id);
    assert_eq!(back.send_email, e.send_email);
    assert_eq!(back.send_name, e.send_name);
    assert_eq!(back.subject, e.subject);
    assert_eq!(back.to_email, e.to_email);
    assert_eq!(back.to_name, e.to_name);
    assert_eq!(back.create_time, e.create_time);
    assert_eq!(back.type_, e.type_);
    assert_eq!(back.content, e.content);
    assert_eq!(back.text, e.text);
    assert_eq!(back.is_del, e.is_del);
}

#[test]
fn email_round_trips_with_negative_and_extreme_numbers() {
    let mut e = sample_email();
    e.email_id = -2147483648;
    e.type_ = 2147483647;
    e.is_del = 0;
    let back = decode_email(&encode_email(&e)).expect("decodes");
    assert_eq!(back.email_id, -2147483648);
    assert_eq!(back.type_, 2147483647);
    assert_eq!(back.is_del, 0);
}

#[test]
fn decoder_takes_any_member_order_extra_members_and_whitespace() {
    let wire = " { \"message\" : \"ok\" , \"extra\" : [ 1 , {\"x\": null} ] ,\n\t\"data\" : null , \"code\" : 200 } ";
    let env = decode_email_list_response(wire).expect("decodes");
    assert_eq!(env.code, 200);
    assert_eq!(env.message, "ok");
    assert!(env.data.is_none());
}

#[test]
fn decoder_rejects_missing_required_members() {
    assert!(decode_email_list_response("{\"message\":\"no code\"}").is_none());
    assert!(decode_email_list_response("{\"code\":200}").is_none());
    assert!(decode_email_list_response("not json at all").is_none());
    assert!(decode_email_list_response("{\"code\":200,\"message\":\"x\"} trailing").is_none());
}

#[test]
fn decoder_reads_common_and_unicode_escapes() {
    let env = decode_email_list_response(
        "{\"code\":200,\"message\":\"a\\u0009b\\n\\\"q\\\"\\\\\",\"data\":null}",
    )
    .expect("decodes");
    assert_eq!(env.message, "a\tb\n\"q\"\\");
}

#[test]
fn envelope_round_trips_through_wire_text() {
    let env = EmailListResponse {
        code: 200,
        message: String::new(),
        data: Some(vec![sample_email()]),
    };
    let wire = encode_email_list_response(&env);
    let back = decode_email_list_response(&wire).expect("decodes");
    assert_eq!(back.code, 200);
    assert_eq!(back.message, "");
    let rows = back.data.expect("rows");
    assert_eq!(rows.len(), 1);
    assert_eq!(rows[0].subject, "Welcome \"friend\"");
}

#[test]
fn wire_text_agrees_with_an_independent_json_parser() {
    let env = EmailListResponse {
        code: 200,
        message: "all good".to_string(),
        data: Some(vec![sample_email()]),
    };
    let wire = encode_email_list_response(&env);
    let v: serde_json::Value = serde_json::from_str(&wire).expect("valid JSON");
    assert_eq!(v["code"], serde_json::Value::from(200));
    assert_eq!(v["message"], serde_json::Value::from("all good"));
    assert_eq!(v["data"][0]["type"], serde_json::Value::from(7));
    assert_eq!(v["data"][0]["subject"], serde_json::Value::from("Welcome \"friend\""));
    assert_eq!(
        v["data"][0]["content"],
        serde_json::Value::from("<p>line one</p>\nline two\ttabbed\u{1}</p>")
    );

    // And the decoder reads what that parser writes, pretty-printed.
    let pretty = serde_json::to_string_pretty(&v).expect("prints");
    let back = decode_email_list_response(&pretty).expect("decodes");
    assert_eq!(back.code, 200);
    assert_eq!(back.data.unwrap()[0].text, "plain ünïcode ✓");
}
