use serde_patch::diff::{compute_diff, diff, diff_including};
use serde_patch::merge::{apply_merge_patch, apply_merge_patch_mut, merge_patch};
use serde_patch::value::{Json, Number};

fn to_json(v: &serde_json::Value) -> Json {
    match v {
        serde_json::Value::Null => Json::Null,
        serde_json::Value::Bool(b) => Json::Bool(*b),
        serde_json::Value::Number(n) => Json::Number(if let Some(u) = n.as_u64() {
            Number::PosInt(u)
        } else if let Some(i) = n.as_i64() {
            Number::NegInt(i)
        } else {
            Number::Float(n.as_f64().unwrap().to_bits())
        }),
        serde_json::Value::String(s) => Json::String(s.clone()),
        serde_json::Value::Array(a) => Json::Array(a.iter().map(to_json).collect()),
        serde_json::Value::Object(m) => {
            Json::Object(m.iter().map(|(k, v)| (k.clone(), to_json(v))).collect())
        }
    }
}

fn parse(text: &str) -> Json {
    to_json(&serde_json::from_str(text).unwrap())
}

fn s(text: &str) -> Json {
    Json::String(text.to_string())
}

fn pos(n: u64) -> Json {
    Json::Number(Number::PosInt(n))
}

fn obj(members: Vec<(&str, Json)>) -> Json {
    Json::Object(members.into_iter().map(|(k, v)| (k.to_string(), v)).collect())
}

/// The tree of a user record; an absent optional field is left out.
fn user(age: u64, active: bool, bio: &str, avatar_url: Option<&str>) -> Json {
    let mut profile = vec![("bio", s(bio))];
    if let Some(url) = avatar_url {
        profile.push(("avatar_url", s(url)));
    }
    obj(vec![
        ("id", pos(1001)),
        ("username", s("alice")),
        ("age", pos(age)),
        ("active", Json::Bool(active)),
        ("profile", obj(profile)),
    ])
}

fn alice_old() -> Json {
    user(30, true, "Software engineer", Some("https://example.com/alice-old.jpg"))
}

#[test]
fn test_diff() {
    let old = alice_old();
    let new = user(31, false, "Senior software engineer", None);
    let patch = diff(&old, &new);
    assert_eq!(
        patch,
        parse(r#"{"active":false,"age":31,"profile":{"avatar_url":null,"bio":"Senior software engineer"}}"#)
    );
}

#[test]
fn test_diff_forced_nested() {
    let old = alice_old();
    let new = user(31, false, "Software engineer", None);
    let patch_value = diff_including(&old, &new, &["profile.bio"]);
    let expected = obj(vec![
        ("age", pos(31)),
        ("active", Json::Bool(false)),
        ("profile", obj(vec![("bio", s("Software engineer")), ("avatar_url", Json::Null)])),
    ]);
    assert_eq!(patch_value, expected);
}

const PATCH: &str = r#"
    {
        "age": 31,
        "active": false,
        "profile": {
            "bio": "Senior software engineer",
            "avatar_url": null
        }
    }
"#;

#[test]
fn test_apply_patch_immutable() {
    let current = alice_old();
    let updated = apply_merge_patch(current, &parse(PATCH));
    assert_eq!(updated, user(31, false, "Senior software engineer", None));
}

#[test]
fn test_apply_patch_mutable() {
    let mut current = alice_old();
    apply_merge_patch_mut(&mut current, &parse(PATCH));
    assert_eq!(current, user(31, false, "Senior software engineer", None));
}

#[test]
fn diff_including_id_adds_id() {
    let old = alice_old();
    let new = user(31, false, "Senior software engineer", None);
    let patch = diff_including(&old, &new, &["id"]);
    assert_eq!(
        patch,
        parse(r#"{"id":1001,"active":false,"age":31,"profile":{"avatar_url":null,"bio":"Senior software engineer"}}"#)
    );
    let plain = diff(&old, &new);
    assert_ne!(patch, plain);
}

#[test]
fn diff_of_equal_records_is_empty_object() {
    let x = alice_old();
    assert_eq!(diff(&x, &x.deep_clone()), Json::new_object());
    assert_eq!(diff(&pos(5), &pos(5)), Json::new_object());
}

#[test]
fn empty_patch_leaves_record() {
    let base = alice_old();
    assert_eq!(apply_merge_patch(base.deep_clone(), &parse("{}")), base);
}

#[test]
fn round_trip_restores_new_record() {
    let old = alice_old();
    let new = user(31, false, "Senior software engineer", None);
    let patch = diff(&old, &new);
    assert_eq!(apply_merge_patch(old.deep_clone(), &patch), new);
    let forced = diff_including(&old, &new, &["id", "profile.bio"]);
    assert_eq!(apply_merge_patch(old, &forced), new);
}

#[test]
fn apply_sets_one_field() {
    let base = parse(r#"{"age":30,"id":1}"#);
    assert_eq!(apply_merge_patch(base, &parse(r#"{"age":31}"#)), parse(r#"{"age":31,"id":1}"#));
}

#[test]
fn apply_null_removes_field() {
    let base = parse(r#"{"age":30,"id":1}"#);
    assert_eq!(apply_merge_patch(base, &parse(r#"{"age":null}"#)), parse(r#"{"id":1}"#));
}

#[test]
fn deleted_optional_field_is_null_in_diff() {
    let old = parse(r#"{"a":1,"b":"x"}"#);
    let new = parse(r#"{"a":1}"#);
    let patch = diff(&old, &new);
    assert_eq!(patch, parse(r#"{"b":null}"#));
    assert_eq!(apply_merge_patch(old, &patch), new);
}

#[test]
fn arrays_are_replaced_whole() {
    let old = parse(r#"{"tags":[1,2,3],"n":1}"#);
    let new = parse(r#"{"tags":[1,2,4],"n":1}"#);
    assert_eq!(diff(&old, &new), parse(r#"{"tags":[1,2,4]}"#));
    assert_eq!(apply_merge_patch(old, &parse(r#"{"tags":[9]}"#)), parse(r#"{"tags":[9],"n":1}"#));
}

#[test]
fn object_patch_coerces_scalar_target() {
    let mut target = parse(r#"{"p":5}"#);
    merge_patch(&mut target, &parse(r#"{"p":{"q":1,"r":null}}"#));
    assert_eq!(target, parse(r#"{"p":{"q":1}}"#));
    let mut root = pos(7);
    merge_patch(&mut root, &parse(r#"{"a":true}"#));
    assert_eq!(root, parse(r#"{"a":true}"#));
}

#[test]
fn scalar_patch_replaces_target() {
    assert_eq!(apply_merge_patch(parse(r#"{"a":1}"#), &parse("[1,2]")), parse("[1,2]"));
    assert_eq!(apply_merge_patch(parse(r#"{"a":1}"#), &Json::Null), Json::Null);
}

#[test]
fn equality_ignores_member_order() {
    assert_eq!(parse(r#"{"a":1,"b":[true,null]}"#), parse(r#"{"b":[true,null],"a":1}"#));
    assert_ne!(parse(r#"{"a":1}"#), parse(r#"{"a":1,"b":2}"#));
    assert_ne!(parse("[1,2]"), parse("[2,1]"));
}

#[test]
fn compute_diff_of_scalars() {
    let forced = vec!["x".to_string()];
    assert_eq!(compute_diff(Some(&pos(1)), &pos(1), &Vec::new(), ""), None);
    assert_eq!(compute_diff(Some(&pos(1)), &pos(1), &forced, "x"), Some(pos(1)));
    assert_eq!(compute_diff(None, &pos(1), &Vec::new(), ""), Some(pos(1)));
    assert_eq!(compute_diff(Some(&pos(1)), &s("1"), &Vec::new(), ""), Some(s("1")));
}

#[test]
fn forced_nested_path_below_nested_object() {
    let old = parse(r#"{"a":{"b":{"c":1,"d":2}}}"#);
    let new = parse(r#"{"a":{"b":{"c":1,"d":3}}}"#);
    assert_eq!(diff(&old, &new), parse(r#"{"a":{"b":{"d":3}}}"#));
    assert_eq!(diff_including(&old, &new, &["a.b.c"]), parse(r#"{"a":{"b":{"c":1,"d":3}}}"#));
    assert_eq!(diff_including(&old, &old, &["a"]), parse(r#"{"a":{"b":{"c":1,"d":2}}}"#));
}
