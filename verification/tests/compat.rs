use betterops::codec::{parse_document, serialize_document};
use betterops::model::{ConfigDocument, VarKind, VariableSpec};

fn entry(key: &str, kind: VarKind, value: &str) -> VariableSpec {
    VariableSpec { key: key.to_string(), kind, value: value.to_string() }
}

#[test]
fn saved_documents_are_valid_json() {
    let mut doc = ConfigDocument::empty();
    doc.upsert(
        "dev".to_string(),
        vec![
            entry("GREETING", VarKind::Literal, "say \"hi\"\nplease"),
            entry("NOW", VarKind::Command, "date +%s"),
        ],
    );
    let text = serialize_document(&doc);
    let parsed: serde_json::Value = serde_json::from_str(&text).unwrap();
    assert_eq!(parsed["current"].as_str().unwrap(), "dev");
    let entries = parsed["profiles"]["dev"].as_array().unwrap();
    assert_eq!(entries.len(), 2);
    assert_eq!(entries[0]["key"].as_str().unwrap(), "GREETING");
    assert_eq!(entries[0]["type"].as_str().unwrap(), "value");
    assert_eq!(entries[0]["value"].as_str().unwrap(), "say \"hi\"\nplease");
    assert_eq!(entries[1]["type"].as_str().unwrap(), "command");
}

#[test]
fn json_written_by_serde_parses_back() {
    // build the document with serde_json's own types and writer, then read
    // it with the library's parser
    let mut entry = serde_json::Map::new();
    entry.insert("key".to_string(), serde_json::Value::String("PATHISH".to_string()));
    entry.insert("type".to_string(), serde_json::Value::String("value".to_string()));
    entry.insert(
        "value".to_string(),
        serde_json::Value::String("with \"quotes\", tabs\t and \\ slashes".to_string()),
    );
    let mut profiles = serde_json::Map::new();
    profiles.insert(
        "main".to_string(),
        serde_json::Value::Array(vec![serde_json::Value::Object(entry)]),
    );
    let mut root = serde_json::Map::new();
    root.insert("current".to_string(), serde_json::Value::String("main".to_string()));
    root.insert("profiles".to_string(), serde_json::Value::Object(profiles));
    let text = serde_json::to_string(&serde_json::Value::Object(root)).unwrap();

    let doc = parse_document(&text).unwrap();
    assert_eq!(doc.get_current().unwrap().as_str(), "main");
    let def = doc.get_definition(&"main".to_string()).unwrap();
    assert_eq!(def[0].key, "PATHISH");
    assert_eq!(def[0].kind, VarKind::Literal);
    assert_eq!(def[0].value, "with \"quotes\", tabs\t and \\ slashes");
}

#[test]
fn null_current_matches_serde_reading() {
    let doc = ConfigDocument::empty();
    let text = serialize_document(&doc);
    let parsed: serde_json::Value = serde_json::from_str(&text).unwrap();
    assert!(parsed["current"].is_null());
    assert!(parsed["profiles"].as_object().unwrap().is_empty());
}
