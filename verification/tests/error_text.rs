use witchdb::error::{Error, ErrorResponse};

fn text(s: &str) -> String {
    s.to_string()
}

#[test]
fn every_kind_gives_up_its_message() {
    assert_eq!(Error::SyntaxError(text("a")).into_string(), "a");
    assert_eq!(Error::ParseError(text("b")).into_string(), "b");
    assert_eq!(Error::QueryError(text("c")).into_string(), "c");
    assert_eq!(Error::JsonError(text("d")).into_string(), "d");
    assert_eq!(Error::StorageError(text("e")).into_string(), "e");
    assert_eq!(Error::KeyNotFound(text("f")).into_string(), "f");
    assert_eq!(Error::KeyAlreadyExists(text("g")).into_string(), "g");
    assert_eq!(Error::ExecutionError(text("h")).into_string(), "h");
    assert_eq!(Error::IndexError(text("i")).into_string(), "i");
}

#[test]
fn response_is_a_pretty_json_object() {
    let response = Error::KeyNotFound(text("Key 'k' not found")).into_response_string().unwrap();
    assert_eq!(response, "{\n  \"error\": \"Key 'k' not found\"\n}");
}

#[test]
fn response_escapes_the_message_as_json_does() {
    let message = "say \"hi\"\\ \n\ttab \u{0001} \u{00e9}";
    let response = Error::SyntaxError(text(message)).into_response_string().unwrap();
    let mut object = serde_json::Map::new();
    object.insert(text("error"), serde_json::Value::String(text(message)));
    let expected = serde_json::to_string_pretty(&serde_json::Value::Object(object)).unwrap();
    assert_eq!(response, expected);
    assert_eq!(
        response,
        "{\n  \"error\": \"say \\\"hi\\\"\\\\ \\n\\ttab \\u0001 \u{00e9}\"\n}"
    );
    let read: serde_json::Value = serde_json::from_str(&response).unwrap();
    assert_eq!(read.get("error").and_then(|v| v.as_str()), Some(message));
}

#[test]
fn error_response_wraps_the_message() {
    let response = ErrorResponse::from_error(Error::IndexError(text("dup")));
    assert_eq!(response, ErrorResponse { error: text("dup") });
    assert_eq!(response.try_to_string().unwrap(), "{\n  \"error\": \"dup\"\n}");
}

#[test]
fn storage_errors_name_the_storage() {
    let mut db = witchdb::database::Database::new();
    db.create_storage(text("main")).unwrap();
    assert_eq!(
        db.create_storage(text("main")).unwrap_err().into_string(),
        "Storage with name 'main' already exists"
    );
    assert_eq!(
        db.get(text("other"), text("k")).unwrap_err().into_string(),
        "Storage with name 'other' not found"
    );
    assert_eq!(
        db.get(text("main"), text("k")).unwrap_err().into_string(),
        "Key 'k' not found in storage 'main'"
    );
    db.insert(text("main"), text("k"), text("v")).unwrap();
    assert_eq!(
        db.insert(text("main"), text("k"), text("v")).unwrap_err().into_string(),
        "Key 'k' already exists in storage 'main'"
    );
}
