//! Typed wire records of the mail API and their codec.
//!
//! Encoding builds the exact wire object for each record; decoding parses
//! any JSON text and reads the records' fields by key, in any member order
//! and ignoring unknown members. Encoding then decoding a record is proved
//! to give the record back, field for field.

use vstd::prelude::*;
use crate::json::{
    canon_at, clone_json, json_view, json_view_members, json_view_seq, json_to_string,
    lemma_json_view_members_index, lemma_json_view_seq_index,
    lemma_json_view_seq_push, parse_value, ser_json, str_to_chars, wf_jv, ws_to_end, Json, JsonV,
};

verus! {

/// One mail row as the API reports it. The deletion flag is an integer,
/// not a boolean, to match the external contract exactly.
pub struct Email {
    pub email_id: i32,
    pub send_email: String,
    pub send_name: String,
    pub subject: String,
    pub to_email: String,
    pub to_name: String,
    pub create_time: String,
    pub type_: i32,
    pub content: String,
    pub text: String,
    pub is_del: i32,
}

/// The model of a mail row.
#[verifier::ext_equal]
pub struct EmailV {
    pub email_id: int,
    pub send_email: Seq<char>,
    pub send_name: Seq<char>,
    pub subject: Seq<char>,
    pub to_email: Seq<char>,
    pub to_name: Seq<char>,
    pub create_time: Seq<char>,
    pub type_: int,
    pub content: Seq<char>,
    pub text: Seq<char>,
    pub is_del: int,
}

impl View for Email {
    type V = EmailV;

    open spec fn view(&self) -> EmailV {
        EmailV {
            email_id: self.email_id as int,
            send_email: self.send_email@,
            send_name: self.send_name@,
            subject: self.subject@,
            to_email: self.to_email@,
            to_name: self.to_name@,
            create_time: self.create_time@,
            type_: self.type_ as int,
            content: self.content@,
            text: self.text@,
            is_del: self.is_del as int,
        }
    }
}

/// A credential pair handed to the registration endpoint. The password is
/// an opaque string; any policy on it is the external service's.
pub struct User {
    pub email: String,
    pub password: String,
}

/// The model of a credential pair.
#[verifier::ext_equal]
pub struct UserV {
    pub email: Seq<char>,
    pub password: Seq<char>,
}

impl View for User {
    type V = UserV;

    open spec fn view(&self) -> UserV {
        UserV { email: self.email@, password: self.password@ }
    }
}

pub open spec fn emails_view(s: Seq<Email>) -> Seq<EmailV> {
    Seq::new(s.len(), |k: int| s[k]@)
}

/// The response envelope of the mail-list endpoint: a status code, a
/// message, and the rows when there are any. A missing or null `data`
/// member decodes to `None`.
pub struct EmailListResponse {
    pub code: i32,
    pub message: String,
    pub data: Option<Vec<Email>>,
}

#[verifier::ext_equal]
pub struct EmailListResponseV {
    pub code: int,
    pub message: Seq<char>,
    pub data: Option<Seq<EmailV>>,
}

impl View for EmailListResponse {
    type V = EmailListResponseV;

    open spec fn view(&self) -> EmailListResponseV {
        EmailListResponseV {
            code: self.code as int,
            message: self.message@,
            data: match self.data {
                Some(v) => Some(emails_view(v@)),
                None => None,
            },
        }
    }
}

/// The response envelope of the registration endpoint; its payload is
/// arbitrary JSON and is carried along untyped.
pub struct AddUserResponse {
    pub code: i32,
    pub message: String,
    pub data: Option<Json>,
}

#[verifier::ext_equal]
pub struct AddUserResponseV {
    pub code: int,
    pub message: Seq<char>,
    pub data: Option<JsonV>,
}

impl View for AddUserResponse {
    type V = AddUserResponseV;

    open spec fn view(&self) -> AddUserResponseV {
        AddUserResponseV {
            code: self.code as int,
            message: self.message@,
            data: match self.data {
                Some(j) => Some(j@),
                None => None,
            },
        }
    }
}

// ---------------------------------------------------------------------------
// The wire shapes, as JSON values.
// ---------------------------------------------------------------------------

pub open spec fn user_jv(u: UserV) -> JsonV {
    JsonV::Obj(
        seq![("email"@, JsonV::Str(u.email)), ("password"@, JsonV::Str(u.password))],
    )
}

/// The mail-row object. The tag field is serialized under the wire name
/// `type`, which collides with a keyword and so carries another name in the
/// record itself.
pub open spec fn email_jv(e: EmailV) -> JsonV {
    JsonV::Obj(
        seq![
            ("emailId"@, JsonV::Int(e.email_id)),
            ("sendEmail"@, JsonV::Str(e.send_email)),
            ("sendName"@, JsonV::Str(e.send_name)),
            ("subject"@, JsonV::Str(e.subject)),
            ("toEmail"@, JsonV::Str(e.to_email)),
            ("toName"@, JsonV::Str(e.to_name)),
            ("createTime"@, JsonV::Str(e.create_time)),
            ("type"@, JsonV::Int(e.type_)),
            ("content"@, JsonV::Str(e.content)),
            ("text"@, JsonV::Str(e.text)),
            ("isDel"@, JsonV::Int(e.is_del)),
        ],
    )
}

pub open spec fn emails_jv(list: Seq<EmailV>) -> Seq<JsonV> {
    Seq::new(list.len(), |k: int| email_jv(list[k]))
}

pub open spec fn list_response_jv(env: EmailListResponseV) -> JsonV {
    JsonV::Obj(
        seq![
            ("code"@, JsonV::Int(env.code)),
            ("message"@, JsonV::Str(env.message)),
            (
                "data"@,
                match env.data {
                    Some(list) => JsonV::Arr(emails_jv(list)),
                    None => JsonV::Null,
                },
            ),
        ],
    )
}

pub open spec fn email_list_body_jv(to_email: Seq<char>) -> JsonV {
    JsonV::Obj(seq![("toEmail"@, JsonV::Str(to_email))])
}

pub open spec fn users_items(us: Seq<User>) -> Seq<JsonV> {
    Seq::new(us.len(), |k: int| user_jv(us[k]@))
}

pub open spec fn add_users_body_jv(us: Seq<User>) -> JsonV {
    JsonV::Obj(seq![("list"@, JsonV::Arr(users_items(us)))])
}

/// An `i32` is well within what the parser's integers carry.
pub open spec fn i32_range(n: int) -> bool {
    i32::MIN <= n <= i32::MAX
}

pub open spec fn wf_email_v(e: EmailV) -> bool {
    i32_range(e.email_id) && i32_range(e.type_) && i32_range(e.is_del)
}

pub open spec fn wf_list_response_v(env: EmailListResponseV) -> bool {
    &&& i32_range(env.code)
    &&& match env.data {
        Some(list) => forall|k: int| 0 <= k < list.len() ==> wf_email_v(#[trigger] list[k]),
        None => true,
    }
}

// ---------------------------------------------------------------------------
// Encoders.
// ---------------------------------------------------------------------------

fn key(text: &str) -> (r: String)
    ensures
        r@ == text@,
{
    String::from_str(text)
}

fn user_to_json(u: &User) -> (r: Json)
    ensures
        r@ == user_jv(u@),
{
    let mut members: Vec<(String, Json)> = Vec::new();
    members.push((key("email"), Json::Str(u.email.clone())));
    members.push((key("password"), Json::Str(u.password.clone())));
    let r = Json::Obj(members);
    proof {
        lemma_json_view_members_index(members@);
        assert forall|kk: int| 0 <= kk < members@.len() implies json_view_members(members@)[kk]
            =~~= (user_jv(u@))->Obj_0[kk] by {
            assert(json_view_members(members@)[kk] == ((members@[kk]).0@, json_view(
                members@[kk].1,
            )));
        }
        assert(json_view_members(members@) =~~= (user_jv(u@))->Obj_0);
        assert(r@ =~~= user_jv(u@));
    }
    r
}

fn email_to_json(e: &Email) -> (r: Json)
    ensures
        r@ == email_jv(e@),
{
    let mut members: Vec<(String, Json)> = Vec::new();
    members.push((key("emailId"), Json::Int(e.email_id as i64)));
    members.push((key("sendEmail"), Json::Str(e.send_email.clone())));
    members.push((key("sendName"), Json::Str(e.send_name.clone())));
    members.push((key("subject"), Json::Str(e.subject.clone())));
    members.push((key("toEmail"), Json::Str(e.to_email.clone())));
    members.push((key("toName"), Json::Str(e.to_name.clone())));
    members.push((key("createTime"), Json::Str(e.create_time.clone())));
    members.push((key("type"), Json::Int(e.type_ as i64)));
    members.push((key("content"), Json::Str(e.content.clone())));
    members.push((key("text"), Json::Str(e.text.clone())));
    members.push((key("isDel"), Json::Int(e.is_del as i64)));
    let r = Json::Obj(members);
    proof {
        lemma_json_view_members_index(members@);
        assert forall|kk: int| 0 <= kk < members@.len() implies json_view_members(members@)[kk]
            =~~= (email_jv(e@))->Obj_0[kk] by {
            assert(json_view_members(members@)[kk] == ((members@[kk]).0@, json_view(
                members@[kk].1,
            )));
        }
        assert(json_view_members(members@) =~~= (email_jv(e@))->Obj_0);
        assert(r@ =~~= email_jv(e@));
    }
    r
}

/// The wire JSON of one credential record.
pub fn encode_user(u: &User) -> (r: String)
    ensures
        r@ == ser_json(user_jv(u@)),
{
    let j = user_to_json(u);
    json_to_string(&j)
}

/// The wire JSON of one mail row.
pub fn encode_email(e: &Email) -> (r: String)
    ensures
        r@ == ser_json(email_jv(e@)),
{
    let j = email_to_json(e);
    json_to_string(&j)
}

/// The body of a mail-list request: `{"toEmail": <address>}`.
pub fn encode_email_list_body(to_email: &str) -> (r: String)
    ensures
        r@ == ser_json(email_list_body_jv(to_email@)),
{
    let mut members: Vec<(String, Json)> = Vec::new();
    members.push((key("toEmail"), Json::Str(to_email.to_owned())));
    let j = Json::Obj(members);
    proof {
        lemma_json_view_members_index(members@);
        assert forall|kk: int| 0 <= kk < members@.len() implies json_view_members(members@)[kk]
            =~~= (email_list_body_jv(to_email@))->Obj_0[kk] by {
            assert(json_view_members(members@)[kk] == ((members@[kk]).0@, json_view(
                members@[kk].1,
            )));
        }
        assert(json_view_members(members@) =~~= (email_list_body_jv(to_email@))->Obj_0);
        assert(j@ =~~= email_list_body_jv(to_email@));
    }
    json_to_string(&j)
}

/// The body of a registration request: `{"list": [<credentials>...]}`.
pub fn encode_add_users_body(users: &Vec<User>) -> (r: String)
    ensures
        r@ == ser_json(add_users_body_jv(users@)),
{
    let mut arr: Vec<Json> = Vec::new();
    let mut k: usize = 0;
    while k < users.len()
        invariant
            k <= users@.len(),
            json_view_seq(arr@) == users_items(users@.take(k as int)),
        decreases users@.len() - k,
    {
        let ghost arr0 = arr@;
        let j = user_to_json(&users[k]);
        arr.push(j);
        proof {
            lemma_json_view_seq_push(arr0, j);
            assert(json_view_seq(arr@) == json_view_seq(arr0).push(user_jv(users@[k as int]@)));
            assert(users_items(users@.take(k + 1)) =~= users_items(users@.take(k as int)).push(
                user_jv(users@[k as int]@),
            ));
        }
        k = k + 1;
    }
    proof {
        assert(users@.take(users@.len() as int) =~= users@);
    }
    let mut members: Vec<(String, Json)> = Vec::new();
    members.push((key("list"), Json::Arr(arr)));
    let j = Json::Obj(members);
    proof {
        lemma_json_view_members_index(members@);
        assert forall|kk: int| 0 <= kk < members@.len() implies json_view_members(members@)[kk]
            =~~= (add_users_body_jv(users@))->Obj_0[kk] by {
            assert(json_view_members(members@)[kk] == ((members@[kk]).0@, json_view(
                members@[kk].1,
            )));
        }
        assert(json_view_members(members@) =~~= (add_users_body_jv(users@))->Obj_0);
        assert(j@ =~~= add_users_body_jv(users@));
    }
    json_to_string(&j)
}

/// The wire JSON of a whole mail-list envelope, as a stub transport would
/// return it.
pub fn encode_email_list_response(env: &EmailListResponse) -> (r: String)
    ensures
        r@ == ser_json(list_response_jv(env@)),
{
    let data_json: Json = match &env.data {
        None => Json::Null,
        Some(list) => {
            let mut arr: Vec<Json> = Vec::new();
            let mut k: usize = 0;
            while k < list.len()
                invariant
                    k <= list@.len(),
                    json_view_seq(arr@) == emails_jv(emails_view(list@.take(k as int))),
                decreases list@.len() - k,
            {
                let ghost arr0 = arr@;
                let j = email_to_json(&list[k]);
                arr.push(j);
                proof {
                    lemma_json_view_seq_push(arr0, j);
                    assert(emails_jv(emails_view(list@.take(k + 1))) =~= emails_jv(
                        emails_view(list@.take(k as int)),
                    ).push(email_jv(list@[k as int]@)));
                }
                k = k + 1;
            }
            proof {
                assert(list@.take(list@.len() as int) =~= list@);
            }
            Json::Arr(arr)
        },
    };
    proof {
        assert(data_json@ == (match env@.data {
            Some(list) => JsonV::Arr(emails_jv(list)),
            None => JsonV::Null,
        }));
    }
    let mut members: Vec<(String, Json)> = Vec::new();
    members.push((key("code"), Json::Int(env.code as i64)));
    members.push((key("message"), Json::Str(env.message.clone())));
    members.push((key("data"), data_json));
    let j = Json::Obj(members);
    proof {
        lemma_json_view_members_index(members@);
        assert forall|kk: int| 0 <= kk < members@.len() implies json_view_members(members@)[kk]
            =~~= (list_response_jv(env@))->Obj_0[kk] by {
            assert(json_view_members(members@)[kk] == ((members@[kk]).0@, json_view(
                members@[kk].1,
            )));
        }
        assert(json_view_members(members@) =~~= (list_response_jv(env@))->Obj_0);
        assert(j@ =~~= list_response_jv(env@));
    }
    json_to_string(&j)
}

// ---------------------------------------------------------------------------
// Decoders.
// ---------------------------------------------------------------------------

/// The value under the first member named `k`, if any.
pub open spec fn jv_lookup(ms: Seq<(Seq<char>, JsonV)>, k: Seq<char>) -> Option<JsonV>
    decreases ms.len(),
{
    if ms.len() == 0 {
        None
    } else if ms[0].0 == k {
        Some(ms[0].1)
    } else {
        jv_lookup(ms.drop_first(), k)
    }
}

/// The first member of `m` named `needle`, by scanning in order.
fn obj_get<'a>(m: &'a Vec<(String, Json)>, needle: &String) -> (r: Option<&'a Json>)
    ensures
        match r {
            Some(j) => jv_lookup(json_view_members(m@), needle@) == Some(j@),
            None => jv_lookup(json_view_members(m@), needle@) is None,
        },
{
    proof {
        lemma_json_view_members_index(m@);
    }
    let ghost ms = json_view_members(m@);
    proof {
        assert(ms.skip(0) =~= ms);
    }
    let mut k: usize = 0;
    while k < m.len()
        invariant
            k <= m@.len(),
            ms == json_view_members(m@),
            ms.len() == m@.len(),
            forall|t: int| 0 <= t < m@.len() ==> ms[t] == ((#[trigger] m@[t]).0@, json_view(
                m@[t].1,
            )),
            jv_lookup(ms, needle@) == jv_lookup(ms.skip(k as int), needle@),
        decreases m@.len() - k,
    {
        proof {
            assert(ms.skip(k as int)[0] == ms[k as int]);
        }
        if m[k].0.eq(needle) {
            proof {
                assert(ms.skip(k as int)[0].0 == needle@);
                assert(jv_lookup(ms.skip(k as int), needle@) == Some(ms[k as int].1));
            }
            return Some(&m[k].1);
        }
        proof {
            assert(ms.skip(k as int)[0].0 != needle@);
            assert(ms.skip(k as int).drop_first() =~= ms.skip(k + 1));
        }
        k = k + 1;
    }
    proof {
        assert(ms.skip(m@.len() as int).len() == 0);
    }
    None
}

/// The string under `name`, when that member holds a string.
fn get_str(m: &Vec<(String, Json)>, name: &str) -> (r: Option<String>)
    ensures
        match r {
            Some(t) => jv_lookup(json_view_members(m@), name@) == Some(JsonV::Str(t@)),
            None => !(jv_lookup(json_view_members(m@), name@) matches Some(JsonV::Str(_))),
        },
{
    let needle = key(name);
    match obj_get(m, &needle) {
        Some(j) => match j {
            Json::Str(s) => Some(s.clone()),
            _ => None,
        },
        None => None,
    }
}

/// The integer under `name`, when that member holds one within `i32`.
fn get_i32(m: &Vec<(String, Json)>, name: &str) -> (r: Option<i32>)
    ensures
        match r {
            Some(n) => jv_lookup(json_view_members(m@), name@) == Some(JsonV::Int(n as int)),
            None => (match jv_lookup(json_view_members(m@), name@) {
                Some(JsonV::Int(x)) => !i32_range(x),
                _ => true,
            }),
        },
{
    let needle = key(name);
    match obj_get(m, &needle) {
        Some(j) => match j {
            Json::Int(x) => {
                if *x >= -2147483648i64 && *x <= 2147483647i64 {
                    Some(*x as i32)
                } else {
                    None
                }
            },
            _ => None,
        },
        None => None,
    }
}

/// Looking the wire keys up in the object a credential record encodes to.
proof fn lemma_user_lookup(u: UserV)
    ensures
        jv_lookup(user_jv(u)->Obj_0, "email"@) == Some(JsonV::Str(u.email)),
        jv_lookup(user_jv(u)->Obj_0, "password"@) == Some(JsonV::Str(u.password)),
        wf_jv(user_jv(u)),
{
    reveal_strlit("email");
    reveal_strlit("password");
    reveal_with_fuel(jv_lookup, 4);
    assert("email"@.len() == 5 && "password"@.len() == 8);
    let ms = user_jv(u)->Obj_0;
    assert(ms[0].0 == "email"@);
    assert(ms.drop_first()[0] == ms[1]);
    assert(ms[1].0 == "password"@);
    assert("email"@ != "password"@);
    assert(jv_lookup(ms, "password"@) == jv_lookup(ms.drop_first(), "password"@));
    assert forall|k: int| 0 <= k < ms.len() implies wf_jv(#[trigger] ms[k].1) by {
    }
}

/// Looking the wire keys up in the object a mail row encodes to.
proof fn lemma_email_lookup(e: EmailV)
    ensures
        jv_lookup(email_jv(e)->Obj_0, "emailId"@) == Some(JsonV::Int(e.email_id)),
        jv_lookup(email_jv(e)->Obj_0, "sendEmail"@) == Some(JsonV::Str(e.send_email)),
        jv_lookup(email_jv(e)->Obj_0, "sendName"@) == Some(JsonV::Str(e.send_name)),
        jv_lookup(email_jv(e)->Obj_0, "subject"@) == Some(JsonV::Str(e.subject)),
        jv_lookup(email_jv(e)->Obj_0, "toEmail"@) == Some(JsonV::Str(e.to_email)),
        jv_lookup(email_jv(e)->Obj_0, "toName"@) == Some(JsonV::Str(e.to_name)),
        jv_lookup(email_jv(e)->Obj_0, "createTime"@) == Some(JsonV::Str(e.create_time)),
        jv_lookup(email_jv(e)->Obj_0, "type"@) == Some(JsonV::Int(e.type_)),
        jv_lookup(email_jv(e)->Obj_0, "content"@) == Some(JsonV::Str(e.content)),
        jv_lookup(email_jv(e)->Obj_0, "text"@) == Some(JsonV::Str(e.text)),
        jv_lookup(email_jv(e)->Obj_0, "isDel"@) == Some(JsonV::Int(e.is_del)),
        wf_email_v(e) ==> wf_jv(email_jv(e)),
{
    reveal_strlit("emailId");
    reveal_strlit("sendEmail");
    reveal_strlit("sendName");
    reveal_strlit("subject");
    reveal_strlit("toEmail");
    reveal_strlit("toName");
    reveal_strlit("createTime");
    reveal_strlit("type");
    reveal_strlit("content");
    reveal_strlit("text");
    reveal_strlit("isDel");
    reveal_with_fuel(jv_lookup, 13);
    assert("emailId"@.len() == 7 && "sendEmail"@.len() == 9 && "sendName"@.len() == 8
        && "subject"@.len() == 7 && "toEmail"@.len() == 7 && "toName"@.len() == 6
        && "createTime"@.len() == 10 && "type"@.len() == 4 && "content"@.len() == 7
        && "text"@.len() == 4 && "isDel"@.len() == 5);
    assert("emailId"@[0] == 'e' && "subject"@[0] == 's' && "toEmail"@[0] == 't'
        && "content"@[0] == 'c');
    assert("type"@[1] == 'y' && "text"@[1] == 'e');
    let ms = email_jv(e)->Obj_0;
    let d1 = ms.drop_first();
    let d2 = d1.drop_first();
    let d3 = d2.drop_first();
    let d4 = d3.drop_first();
    let d5 = d4.drop_first();
    let d6 = d5.drop_first();
    let d7 = d6.drop_first();
    let d8 = d7.drop_first();
    let d9 = d8.drop_first();
    let d10 = d9.drop_first();
    assert(d1[0] == ms[1] && d1.len() == 10);
    assert(d2[0] == ms[2] && d2.len() == 9);
    assert(d3[0] == ms[3] && d3.len() == 8);
    assert(d4[0] == ms[4] && d4.len() == 7);
    assert(d5[0] == ms[5] && d5.len() == 6);
    assert(d6[0] == ms[6] && d6.len() == 5);
    assert(d7[0] == ms[7] && d7.len() == 4);
    assert(d8[0] == ms[8] && d8.len() == 3);
    assert(d9[0] == ms[9] && d9.len() == 2);
    assert(d10[0] == ms[10] && d10.len() == 1);
    assert(d1[1] == ms[2] && d2[1] == ms[3] && d3[1] == ms[4] && d4[1] == ms[5] && d5[1] == ms[6]
        && d6[1] == ms[7] && d7[1] == ms[8] && d8[1] == ms[9] && d9[1] == ms[10]);
    if wf_email_v(e) {
        assert forall|k: int| 0 <= k < ms.len() implies wf_jv(#[trigger] ms[k].1) by {
        }
    }
}

/// Reads a credential record out of a parsed value. On the object a record
/// encodes to, it returns exactly that record.
fn user_from_json(j: &Json) -> (r: Option<User>)
    ensures
        forall|u: UserV| j@ == #[trigger] user_jv(u) ==> (r matches Some(out) && out@ == u),
{
    match j {
        Json::Obj(m) => {
            let email = get_str(m, "email");
            let password = get_str(m, "password");
            match (email, password) {
                (Some(email), Some(password)) => {
                    let out = User { email, password };
                    proof {
                        assert forall|u: UserV| j@ == #[trigger] user_jv(u) implies out@ =~= u by {
                            lemma_user_lookup(u);
                        }
                    }
                    Some(out)
                },
                _ => {
                    proof {
                        assert forall|u: UserV| j@ != #[trigger] user_jv(u) by {
                            if j@ == user_jv(u) {
                                lemma_user_lookup(u);
                            }
                        }
                    }
                    None
                },
            }
        },
        _ => {
            proof {
                assert forall|u: UserV| j@ != #[trigger] user_jv(u) by {
                }
            }
            None
        },
    }
}

/// Reads a mail row out of a parsed value. On the object a row with
/// `i32`-sized numbers encodes to, it returns exactly that row.
fn email_from_json(j: &Json) -> (r: Option<Email>)
    ensures
        forall|e: EmailV| (wf_email_v(e) && j@ == #[trigger] email_jv(e)) ==> (r matches Some(out)
            && out@ == e),
{
    match j {
        Json::Obj(m) => {
            let email_id = get_i32(m, "emailId");
            let send_email = get_str(m, "sendEmail");
            let send_name = get_str(m, "sendName");
            let subject = get_str(m, "subject");
            let to_email = get_str(m, "toEmail");
            let to_name = get_str(m, "toName");
            let create_time = get_str(m, "createTime");
            let type_ = get_i32(m, "type");
            let content = get_str(m, "content");
            let text = get_str(m, "text");
            let is_del = get_i32(m, "isDel");
            if email_id.is_some() && send_email.is_some() && send_name.is_some()
                && subject.is_some() && to_email.is_some() && to_name.is_some()
                && create_time.is_some() && type_.is_some() && content.is_some() && text.is_some()
                && is_del.is_some() {
                let out = Email {
                    email_id: email_id.unwrap(),
                    send_email: send_email.unwrap(),
                    send_name: send_name.unwrap(),
                    subject: subject.unwrap(),
                    to_email: to_email.unwrap(),
                    to_name: to_name.unwrap(),
                    create_time: create_time.unwrap(),
                    type_: type_.unwrap(),
                    content: content.unwrap(),
                    text: text.unwrap(),
                    is_del: is_del.unwrap(),
                };
                proof {
                    assert forall|e: EmailV| (wf_email_v(e) && j@ == #[trigger] email_jv(e))
                        implies out@ =~= e by {
                        lemma_email_lookup(e);
                    }
                }
                Some(out)
            } else {
                proof {
                    assert forall|e: EmailV| !(wf_email_v(e) && j@ == #[trigger] email_jv(e)) by {
                        if wf_email_v(e) && j@ == email_jv(e) {
                            lemma_email_lookup(e);
                        }
                    }
                }
                None
            }
        },
        _ => {
            None
        },
    }
}

/// The registration envelope, with whatever payload the service sent.
pub open spec fn add_response_jv(env: AddUserResponseV) -> JsonV {
    JsonV::Obj(
        seq![
            ("code"@, JsonV::Int(env.code)),
            ("message"@, JsonV::Str(env.message)),
            (
                "data"@,
                match env.data {
                    Some(d) => d,
                    None => JsonV::Null,
                },
            ),
        ],
    )
}

/// Envelopes the decoder can reproduce exactly: an `i32` status code, and a
/// payload that is not itself `null` (an absent payload is encoded as
/// `null` and decoded back to absent).
pub open spec fn wf_add_response_v(env: AddUserResponseV) -> bool {
    &&& i32_range(env.code)
    &&& match env.data {
        Some(d) => wf_jv(d) && !(d is Null),
        None => true,
    }
}

/// Looking the three wire keys up in a mail-list envelope object.
proof fn lemma_list_lookup(env: EmailListResponseV)
    ensures
        jv_lookup(list_response_jv(env)->Obj_0, "code"@) == Some(JsonV::Int(env.code)),
        jv_lookup(list_response_jv(env)->Obj_0, "message"@) == Some(JsonV::Str(env.message)),
        jv_lookup(list_response_jv(env)->Obj_0, "data"@) == Some(
            match env.data {
                Some(list) => JsonV::Arr(emails_jv(list)),
                None => JsonV::Null,
            },
        ),
        wf_list_response_v(env) ==> wf_jv(list_response_jv(env)),
{
    reveal_strlit("code");
    reveal_strlit("message");
    reveal_strlit("data");
    reveal_with_fuel(jv_lookup, 5);
    assert("code"@.len() == 4 && "message"@.len() == 7 && "data"@.len() == 4);
    assert("code"@[0] == 'c' && "data"@[0] == 'd');
    let ms = list_response_jv(env)->Obj_0;
    assert(ms.drop_first()[0] == ms[1]);
    assert(ms.drop_first().drop_first()[0] == ms[2]);
    if wf_list_response_v(env) {
        assert forall|k: int| 0 <= k < ms.len() implies wf_jv(#[trigger] ms[k].1) by {
            if k == 2 {
                match env.data {
                    Some(list) => {
                        assert forall|t: int| 0 <= t < emails_jv(list).len() implies wf_jv(
                            #[trigger] emails_jv(list)[t],
                        ) by {
                            lemma_email_lookup(list[t]);
                        }
                    },
                    None => {},
                }
            }
        }
    }
}

/// Looking the three wire keys up in a registration envelope object.
proof fn lemma_add_lookup(env: AddUserResponseV)
    ensures
        jv_lookup(add_response_jv(env)->Obj_0, "code"@) == Some(JsonV::Int(env.code)),
        jv_lookup(add_response_jv(env)->Obj_0, "message"@) == Some(JsonV::Str(env.message)),
        jv_lookup(add_response_jv(env)->Obj_0, "data"@) == Some(
            match env.data {
                Some(d) => d,
                None => JsonV::Null,
            },
        ),
        wf_add_response_v(env) ==> wf_jv(add_response_jv(env)),
{
    reveal_strlit("code");
    reveal_strlit("message");
    reveal_strlit("data");
    reveal_with_fuel(jv_lookup, 5);
    assert("code"@.len() == 4 && "message"@.len() == 7 && "data"@.len() == 4);
    assert("code"@[0] == 'c' && "data"@[0] == 'd');
    let ms = add_response_jv(env)->Obj_0;
    assert(ms.drop_first()[0] == ms[1]);
    assert(ms.drop_first().drop_first()[0] == ms[2]);
    if wf_add_response_v(env) {
        assert forall|k: int| 0 <= k < ms.len() implies wf_jv(#[trigger] ms[k].1) by {
        }
    }
}

/// Decodes one credential record from wire JSON: any member order, unknown
/// members ignored. Decoding what `encode_user` produced gives the record
/// back, field for field.
pub fn decode_user(s: &str) -> (r: Option<User>)
    ensures
        forall|u: UserV| s@ == ser_json(#[trigger] user_jv(u)) ==> (r matches Some(out) && out@
            == u),
{
    let cs = str_to_chars(s);
    let (p, oj) = parse_value(&cs, 0);
    proof {
        assert forall|u: UserV| s@ == ser_json(#[trigger] user_jv(u)) implies canon_at(
            cs@,
            0,
            user_jv(u),
            Seq::<char>::empty(),
        ) by {
            lemma_user_lookup(u);
            assert(cs@.skip(0) =~= cs@);
            assert(cs@ =~= ser_json(user_jv(u)) + Seq::<char>::empty());
        }
    }
    match oj {
        Some(j) => {
            if ws_to_end(&cs, p) {
                user_from_json(&j)
            } else {
                None
            }
        },
        None => None,
    }
}

/// Decodes one mail row from wire JSON, likewise. Decoding what
/// `encode_email` produced gives the row back, every field and the integer
/// deletion flag included.
pub fn decode_email(s: &str) -> (r: Option<Email>)
    ensures
        forall|e: EmailV| (wf_email_v(e) && s@ == ser_json(#[trigger] email_jv(e))) ==> (r matches
            Some(out) && out@ == e),
{
    let cs = str_to_chars(s);
    let (p, oj) = parse_value(&cs, 0);
    proof {
        assert forall|e: EmailV| (wf_email_v(e) && s@ == ser_json(#[trigger] email_jv(e)))
            implies canon_at(cs@, 0, email_jv(e), Seq::<char>::empty()) by {
            lemma_email_lookup(e);
            assert(cs@.skip(0) =~= cs@);
            assert(cs@ =~= ser_json(email_jv(e)) + Seq::<char>::empty());
        }
    }
    match oj {
        Some(j) => {
            if ws_to_end(&cs, p) {
                email_from_json(&j)
            } else {
                None
            }
        },
        None => None,
    }
}

/// Reads a row out of every element, in order; any failure fails the whole
/// sequence.
fn emails_from_json(a: &Vec<Json>) -> (r: Option<Vec<Email>>)
    ensures
        forall|list: Seq<EmailV>| ((forall|t: int| 0 <= t < list.len() ==> wf_email_v(
            #[trigger] list[t],
        )) && json_view_seq(a@) == #[trigger] emails_jv(list)) ==> (r matches Some(out)
            && emails_view(out@) == list),
{
    proof {
        lemma_json_view_seq_index(a@);
    }
    let mut out: Vec<Email> = Vec::new();
    let mut k: usize = 0;
    while k < a.len()
        invariant
            k <= a@.len(),
            out@.len() == k,
            forall|list: Seq<EmailV>| ((forall|t: int| 0 <= t < list.len() ==> wf_email_v(
                #[trigger] list[t],
            )) && json_view_seq(a@) == #[trigger] emails_jv(list)) ==> emails_view(out@)
                == list.take(k as int),
        decreases a@.len() - k,
    {
        proof {
            lemma_json_view_seq_index(a@);
            assert forall|list: Seq<EmailV>| ((forall|t: int| 0 <= t < list.len() ==> wf_email_v(
                #[trigger] list[t],
            )) && json_view_seq(a@) == #[trigger] emails_jv(list)) implies (list.len() == a@.len()
                && a@[k as int]@ == email_jv(list[k as int]) && wf_email_v(list[k as int])) by {
                assert(emails_jv(list)[k as int] == email_jv(list[k as int]));
                assert(json_view_seq(a@)[k as int] == json_view(a@[k as int]));
            }
        }
        let oe = email_from_json(&a[k]);
        match oe {
            Some(e) => {
                let ghost out0 = out@;
                let ghost ev = e@;
                out.push(e);
                proof {
                    assert forall|list: Seq<EmailV>| ((forall|t: int| 0 <= t < list.len()
                        ==> wf_email_v(#[trigger] list[t])) && json_view_seq(a@)
                        == #[trigger] emails_jv(list)) implies emails_view(out@) == list.take(
                        k + 1,
                    ) by {
                        assert(emails_view(out@) =~= emails_view(out0).push(ev));
                        assert(list.take(k + 1) =~= list.take(k as int).push(list[k as int]));
                    }
                }
                k = k + 1;
            },
            None => {
                return None;
            },
        }
    }
    proof {
        assert forall|list: Seq<EmailV>| ((forall|t: int| 0 <= t < list.len() ==> wf_email_v(
            #[trigger] list[t],
        )) && json_view_seq(a@) == #[trigger] emails_jv(list)) implies emails_view(out@) == list
            by {
            assert(list.take(list.len() as int) =~= list);
        }
    }
    Some(out)
}

/// Decodes a mail-list envelope from wire JSON: `code` and `message` are
/// required, `data` may be missing, `null`, or the array of rows; member
/// order is free and unknown members are ignored. Decoding the text a
/// well-formed envelope serializes to gives that envelope back.
pub fn decode_email_list_response(s: &str) -> (r: Option<EmailListResponse>)
    ensures
        forall|env: EmailListResponseV| (wf_list_response_v(env) && s@ == ser_json(
            #[trigger] list_response_jv(env),
        )) ==> (r matches Some(out) && out@ == env),
{
    let cs = str_to_chars(s);
    let (p, oj) = parse_value(&cs, 0);
    proof {
        assert forall|env: EmailListResponseV| (wf_list_response_v(env) && s@ == ser_json(
            #[trigger] list_response_jv(env),
        )) implies canon_at(cs@, 0, list_response_jv(env), Seq::<char>::empty()) by {
            lemma_list_lookup(env);
            assert(cs@.skip(0) =~= cs@);
            assert(cs@ =~= ser_json(list_response_jv(env)) + Seq::<char>::empty());
        }
    }
    let j = match oj {
        Some(j) => j,
        None => {
            return None;
        },
    };
    if !ws_to_end(&cs, p) {
        return None;
    }
    proof {
        assert forall|env: EmailListResponseV| (wf_list_response_v(env) && s@ == ser_json(
            #[trigger] list_response_jv(env),
        )) implies (j@ == list_response_jv(env)) by {
        }
    }
    let m = match j {
        Json::Obj(m) => m,
        _ => {
            return None;
        },
    };
    proof {
        assert forall|env: EmailListResponseV| (wf_list_response_v(env) && s@ == ser_json(
            #[trigger] list_response_jv(env),
        )) implies ({
            &&& json_view_members(m@) == list_response_jv(env)->Obj_0
            &&& jv_lookup(json_view_members(m@), "code"@) == Some(JsonV::Int(env.code))
            &&& jv_lookup(json_view_members(m@), "message"@) == Some(JsonV::Str(env.message))
            &&& jv_lookup(json_view_members(m@), "data"@) == Some(match env.data {
                Some(list) => JsonV::Arr(emails_jv(list)),
                None => JsonV::Null,
            })
        }) by {
            lemma_list_lookup(env);
        }
    }
    let code = match get_i32(&m, "code") {
        Some(c) => c,
        None => {
            return None;
        },
    };
    let message = match get_str(&m, "message") {
        Some(t) => t,
        None => {
            return None;
        },
    };
    let dneedle = key("data");
    let data: Option<Vec<Email>> = match obj_get(&m, &dneedle) {
        None => None,
        Some(dj) => match dj {
            Json::Null => None,
            Json::Arr(arr) => match emails_from_json(arr) {
                Some(v) => Some(v),
                None => {
                    return None;
                },
            },
            _ => {
                return None;
            },
        },
    };
    let out = EmailListResponse { code, message, data };
    proof {
        assert forall|env: EmailListResponseV| (wf_list_response_v(env) && s@ == ser_json(
            #[trigger] list_response_jv(env),
        )) implies out@ =~= env by {
            lemma_list_lookup(env);
        }
    }
    Some(out)
}

/// Decodes a registration envelope from wire JSON: `code` and `message`
/// required, the payload carried along untyped, `null` and absent both
/// read as no payload.
pub fn decode_add_user_response(s: &str) -> (r: Option<AddUserResponse>)
    ensures
        forall|env: AddUserResponseV| (wf_add_response_v(env) && s@ == ser_json(
            #[trigger] add_response_jv(env),
        )) ==> (r matches Some(out) && out@ == env),
{
    let cs = str_to_chars(s);
    let (p, oj) = parse_value(&cs, 0);
    proof {
        assert forall|env: AddUserResponseV| (wf_add_response_v(env) && s@ == ser_json(
            #[trigger] add_response_jv(env),
        )) implies canon_at(cs@, 0, add_response_jv(env), Seq::<char>::empty()) by {
            lemma_add_lookup(env);
            assert(cs@.skip(0) =~= cs@);
            assert(cs@ =~= ser_json(add_response_jv(env)) + Seq::<char>::empty());
        }
    }
    let j = match oj {
        Some(j) => j,
        None => {
            return None;
        },
    };
    if !ws_to_end(&cs, p) {
        return None;
    }
    let m = match j {
        Json::Obj(m) => m,
        _ => {
            return None;
        },
    };
    proof {
        assert forall|env: AddUserResponseV| (wf_add_response_v(env) && s@ == ser_json(
            #[trigger] add_response_jv(env),
        )) implies ({
            &&& json_view_members(m@) == add_response_jv(env)->Obj_0
            &&& jv_lookup(json_view_members(m@), "code"@) == Some(JsonV::Int(env.code))
            &&& jv_lookup(json_view_members(m@), "message"@) == Some(JsonV::Str(env.message))
            &&& jv_lookup(json_view_members(m@), "data"@) == Some(match env.data {
                Some(d) => d,
                None => JsonV::Null,
            })
        }) by {
            lemma_add_lookup(env);
        }
    }
    let code = match get_i32(&m, "code") {
        Some(c) => c,
        None => {
            return None;
        },
    };
    let message = match get_str(&m, "message") {
        Some(t) => t,
        None => {
            return None;
        },
    };
    let dneedle = key("data");
    let data: Option<Json> = match obj_get(&m, &dneedle) {
        None => None,
        Some(dj) => match dj {
            Json::Null => None,
            _ => Some(clone_json(dj)),
        },
    };
    let out = AddUserResponse { code, message, data };
    proof {
        assert forall|env: AddUserResponseV| (wf_add_response_v(env) && s@ == ser_json(
            #[trigger] add_response_jv(env),
        )) implies out@ =~= env by {
            lemma_add_lookup(env);
        }
    }
    Some(out)
}

} // verus!
