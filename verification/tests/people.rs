use traffic_stats::json::{read_object, Json};
use traffic_stats::text::{before_char, chars_of, same, split_str};
use traffic_stats::users::{
    hysteria_map, load_users, name_map, user_from_json, users_from_json, LoadError, UidMap, User,
    UserError,
};

fn user(uid: u32, name: &str, uuid: &str) -> User {
    User { uid, name: name.to_string(), uuid: uuid.to_string() }
}

fn fault(document: &str) -> UserError {
    match load_users(document.as_bytes()) {
        Err(LoadError::User(error)) => error,
        other => panic!("{:?}", other),
    }
}

#[test]
fn characters() {
    assert_eq!(chars_of(""), Vec::<char>::new());
    assert_eq!(chars_of("aé字"), vec!['a', 'é', '字']);
    assert!(same("", ""));
    assert!(same("字x", "字x"));
    assert!(!same("ab", "abc"));
    assert!(!same("ab", "ac"));
}

#[test]
fn text_before_a_character() {
    assert_eq!(before_char("root@a.cc", '@'), "root");
    assert_eq!(before_char("a@b@c", '@'), "a");
    assert_eq!(before_char("@b", '@'), "");
    assert_eq!(before_char("plain", '@'), "plain");
    assert_eq!(before_char("", '@'), "");
    assert_eq!(before_char("字é@x", '@'), "字é");
}

#[test]
fn text_between_separators() {
    assert_eq!(split_str("a>>>b>>>c", ">>>"), vec!["a", "b", "c"]);
    assert_eq!(split_str("", ">>>"), vec![""]);
    assert_eq!(split_str(">>>", ">>>"), vec!["", ""]);
    assert_eq!(split_str("a>>b", ">>>"), vec!["a>>b"]);
    assert_eq!(split_str("a>>>>b", ">>>"), vec!["a", ">b"]);
    assert_eq!(split_str("a>>>>>>b", ">>>"), vec!["a", "", "b"]);
    assert_eq!(split_str("é>>>字>>>", ">>>"), vec!["é", "字", ""]);
    assert_eq!(split_str("aaa", "a"), vec!["", "", "", ""]);
}

#[test]
fn pieces_make_up_the_text() {
    for s in ["", "x", ">>>", "a>>>b", "a>>>>b>>", ">>>a>>>字>>>"] {
        assert_eq!(split_str(s, ">>>").join(">>>"), s);
        assert_eq!(split_str(s, ">>>"), s.split(">>>").collect::<Vec<&str>>());
    }
}

#[test]
fn name_of_an_email() {
    assert_eq!(User::name_from_xray_email("root@a.cc"), "root");
    assert_eq!(User::name_from_xray_email("root"), "root");
    assert_eq!(User::name_from_xray_email("@a.cc"), "");
    assert_eq!(User::name_from_xray_email("a@b@c"), "a");
}

#[test]
fn hysteria_name_of_a_user() {
    let u = user(1, "root", "01234567-89ab-cdef-0123-456789abcdef");
    assert_eq!(u.hysteria_user(), "01234567");
    assert_eq!(user(1, "root", "nohyphen").hysteria_user(), "nohyphen");
    assert_eq!(user(1, "root", "-x").hysteria_user(), "");
    assert_eq!(user(1, "root", "").hysteria_user(), "");
}

#[test]
fn users_of_a_document() {
    let document = r#"{
        "root": {"id": 1, "uuid": "aaaa-1", "note": [1, {"deep": null}]},
        "guest": {"uuid": "bbbb-2", "id": 4294967298}
    }"#;
    let mut users = load_users(document.as_bytes()).unwrap();
    users.sort_by(|a, b| a.uid.cmp(&b.uid));
    assert_eq!(users.len(), 2);
    assert_eq!(users[0].uid, 1);
    assert_eq!(users[0].name, "root");
    assert_eq!(users[0].uuid, "aaaa-1");
    // The id is cut to 32 bits.
    assert_eq!(users[1].uid, 2);
    assert_eq!(users[1].name, "guest");
    assert_eq!(users[1].uuid, "bbbb-2");
}

#[test]
fn users_come_by_name() {
    let document = r#"{"b": {"id": 1, "uuid": "x"}, "a": {"id": 2, "uuid": "y"}}"#;
    let users = load_users(document.as_bytes()).unwrap();
    assert_eq!(users[0].name, "a");
    assert_eq!(users[1].name, "b");
}

#[test]
fn names_occur_once() {
    let document = r#"{"a": {"id": 1, "uuid": "x"}, "a": {"id": 2, "uuid": "y"}}"#;
    let users = load_users(document.as_bytes()).unwrap();
    assert_eq!(users.len(), 1);
    assert_eq!(users[0].uid, 2);
    assert_eq!(users[0].uuid, "y");
}

#[test]
fn no_users() {
    assert_eq!(load_users(b"{}").unwrap().len(), 0);
}

#[test]
fn documents_that_are_no_object() {
    for document in ["", "[]", "1", "{", "{\"a\": }", "{} x", "null"] {
        assert!(matches!(load_users(document.as_bytes()), Err(LoadError::Json(_))), "{}", document);
        assert!(read_object(document.as_bytes()).is_err(), "{}", document);
    }
    assert!(load_users(&[b'{', b'"', 0xff, b'"', b':', b'1', b'}']).is_err());
}

#[test]
fn members_without_a_proper_id() {
    assert_eq!(fault(r#"{"a": {"uuid": "x"}}"#), UserError::BadId);
    assert_eq!(fault(r#"{"a": {"id": -1, "uuid": "x"}}"#), UserError::BadId);
    assert_eq!(fault(r#"{"a": {"id": 1.0, "uuid": "x"}}"#), UserError::BadId);
    assert_eq!(fault(r#"{"a": {"id": "1", "uuid": "x"}}"#), UserError::BadId);
    assert_eq!(fault(r#"{"a": {"id": 18446744073709551616, "uuid": "x"}}"#), UserError::BadId);
    assert_eq!(fault(r#"{"a": null}"#), UserError::BadId);
    assert_eq!(fault(r#"{"a": [1]}"#), UserError::BadId);
    assert_eq!(fault(r#"{"a": "id"}"#), UserError::BadId);
}

#[test]
fn members_without_a_proper_uuid() {
    assert_eq!(fault(r#"{"a": {"id": 1}}"#), UserError::NoUuid);
    assert_eq!(fault(r#"{"a": {"id": 1, "uuid": null}}"#), UserError::BadUuid);
    assert_eq!(fault(r#"{"a": {"id": 1, "uuid": 7}}"#), UserError::BadUuid);
    assert_eq!(fault(r#"{"a": {"id": 1, "uuid": ["x"]}}"#), UserError::BadUuid);
}

#[test]
fn largest_id() {
    let users = load_users(br#"{"a": {"id": 18446744073709551615, "uuid": ""}}"#).unwrap();
    assert_eq!(users[0].uid, u32::MAX);
    assert_eq!(users[0].uuid, "");
}

#[test]
fn the_first_bad_member_is_at_fault() {
    let members = vec![
        ("a".to_string(), Json::Object(vec![
            ("id".to_string(), Json::Number(Some(1))),
            ("uuid".to_string(), Json::Text("x".to_string())),
        ])),
        ("b".to_string(), Json::Object(vec![("id".to_string(), Json::Number(Some(2)))])),
        ("c".to_string(), Json::Null),
    ];
    assert_eq!(users_from_json(members).unwrap_err(), UserError::NoUuid);
}

#[test]
fn a_member_as_a_user() {
    let value = Json::Object(vec![
        ("uuid".to_string(), Json::Text("u-1".to_string())),
        ("id".to_string(), Json::Number(Some(9))),
    ]);
    let u = user_from_json("x".to_string(), &value).unwrap();
    assert_eq!((u.uid, u.name.as_str(), u.uuid.as_str()), (9, "x", "u-1"));
    assert_eq!(user_from_json("x".to_string(), &Json::Bool(true)).unwrap_err(), UserError::BadId);
}

#[test]
fn members_of_a_document() {
    let document =
        br#"{"z": [1, -1, 2.5, "t", true, null], "m": {"k": {"inner": 18446744073709551615}}}"#;
    let members = read_object(document).unwrap();
    assert_eq!(
        format!("{:?}", members),
        "[(\"m\", Object([(\"k\", Object([(\"inner\", Number(Some(18446744073709551615)))]))])), \
         (\"z\", Array([Number(Some(1)), Number(None), Number(None), Text(\"t\"), Bool(true), Null]))]",
    );
}

#[test]
fn looking_up_members() {
    let object = Json::Object(vec![
        ("a".to_string(), Json::Bool(false)),
        ("b".to_string(), Json::Null),
        ("a".to_string(), Json::Bool(true)),
    ]);
    assert!(matches!(object.get("a"), Some(Json::Bool(false))));
    assert!(matches!(object.get("b"), Some(Json::Null)));
    assert!(object.get("c").is_none());
    assert!(Json::Array(vec![Json::Null]).get("a").is_none());
}

#[test]
fn names_to_user_ids() {
    let mut map = UidMap::new();
    assert_eq!(map.get("a"), None);
    map.insert("a".to_string(), 1);
    map.insert("b".to_string(), 2);
    assert_eq!(map.get("a"), Some(1));
    assert_eq!(map.get("b"), Some(2));
    map.insert("a".to_string(), 3);
    assert_eq!(map.get("a"), Some(3));
    assert_eq!(map.get("b"), Some(2));
    assert_eq!(map.get(""), None);
}

#[test]
fn the_last_user_with_a_name_decides() {
    let users =
        vec![user(1, "a", "x-1"), user(2, "b", "y-1"), user(3, "a", "x-2"), user(4, "c", "z")];
    let names = name_map(&users);
    assert_eq!(names.get("a"), Some(3));
    assert_eq!(names.get("b"), Some(2));
    assert_eq!(names.get("x"), None);
    let hysteria = hysteria_map(&users);
    assert_eq!(hysteria.get("x"), Some(3));
    assert_eq!(hysteria.get("y"), Some(2));
    assert_eq!(hysteria.get("z"), Some(4));
    assert_eq!(hysteria.get("a"), None);
    assert_eq!(name_map(&[]).get("a"), None);
}
