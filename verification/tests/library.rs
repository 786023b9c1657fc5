use betterops::codec::{parse_document, serialize_document};
use betterops::model::{ConfigDocument, VarKind, VariableSpec, parse_kind};
use betterops::registry::ExecError;
use betterops::resolver::{Resolver, Step};
use betterops::runner::{forward_exit_code, ChildExit};
use betterops::text::trim;

fn entry(key: &str, kind: VarKind, value: &str) -> VariableSpec {
    VariableSpec { key: key.to_string(), kind, value: value.to_string() }
}

fn get(r: &Resolver, key: &str) -> Option<String> {
    r.env().get(&key.to_string()).cloned()
}

#[test]
fn resolve_empty_yields_empty_env() {
    let mut r = Resolver::new(Vec::new());
    match r.advance() {
        Step::Done => {}
        Step::Run { .. } => panic!("empty definitions asked to run a command"),
    }
    assert_eq!(r.env().entries().len(), 0);
}

#[test]
fn literals_resolve_to_trimmed_values() {
    let defs = vec![entry("A", VarKind::Literal, "  hello "), entry("B", VarKind::Literal, "x y")];
    let mut r = Resolver::new(defs);
    match r.advance() {
        Step::Done => {}
        Step::Run { .. } => panic!("literals asked to run a command"),
    }
    assert_eq!(get(&r, "A").unwrap(), "hello");
    assert_eq!(get(&r, "B").unwrap(), "x y");
}

#[test]
fn command_sees_only_earlier_variables() {
    let defs = vec![entry("A", VarKind::Literal, "1"), entry("B", VarKind::Command, "echo $A")];
    let mut r = Resolver::new(defs);
    match r.advance() {
        Step::Run { key, command } => {
            assert_eq!(key, "B");
            assert_eq!(command, "echo $A");
            // the environment handed to the command holds exactly the
            // earlier entries: A, and not B itself
            assert_eq!(get(&r, "A").unwrap(), "1");
            assert!(get(&r, "B").is_none());
        }
        Step::Done => panic!("command entry not reached"),
    }
    r.supply_output("1\n");
    match r.advance() {
        Step::Done => {}
        Step::Run { .. } => panic!("no further command expected"),
    }
    assert_eq!(get(&r, "A").unwrap(), "1");
    assert_eq!(get(&r, "B").unwrap(), "1");
}

#[test]
fn command_output_is_trimmed_and_may_be_empty() {
    let defs = vec![entry("A", VarKind::Command, "true")];
    let mut r = Resolver::new(defs);
    match r.advance() {
        Step::Run { .. } => {}
        Step::Done => panic!("command entry not reached"),
    }
    r.supply_output("");
    match r.advance() {
        Step::Done => {}
        Step::Run { .. } => panic!("no further command expected"),
    }
    assert_eq!(get(&r, "A").unwrap(), "");
}

#[test]
fn same_key_twice_overwrites() {
    let defs = vec![entry("A", VarKind::Literal, "x"), entry("A", VarKind::Literal, "y")];
    let mut r = Resolver::new(defs);
    match r.advance() {
        Step::Done => {}
        Step::Run { .. } => panic!("literals asked to run a command"),
    }
    assert_eq!(get(&r, "A").unwrap(), "y");
}

#[test]
fn upsert_always_selects_the_upserted_profile() {
    let mut doc = ConfigDocument::empty();
    doc.upsert("alpha".to_string(), vec![entry("A", VarKind::Literal, "1")]);
    assert_eq!(doc.get_current().unwrap().as_str(), "alpha");
    doc.upsert("beta".to_string(), Vec::new());
    assert_eq!(doc.get_current().unwrap().as_str(), "beta");
    // upserting an existing name keeps its position and selects it again
    doc.upsert("alpha".to_string(), Vec::new());
    assert_eq!(doc.get_current().unwrap().as_str(), "alpha");
    let names = doc.list_names();
    assert_eq!(names, vec!["alpha".to_string(), "beta".to_string()]);
}

#[test]
fn set_current_rejects_unknown_names() {
    let mut doc = ConfigDocument::empty();
    doc.upsert("alpha".to_string(), Vec::new());
    assert!(doc.set_current(&"alpha".to_string()).is_ok());
    assert!(doc.set_current(&"missing".to_string()).is_err());
    assert_eq!(doc.get_current().unwrap().as_str(), "alpha");
}

#[test]
fn get_definition_finds_the_named_profile() {
    let mut doc = ConfigDocument::empty();
    doc.upsert("alpha".to_string(), vec![entry("A", VarKind::Literal, "1")]);
    let def = doc.get_definition(&"alpha".to_string()).unwrap();
    assert_eq!(def.len(), 1);
    assert_eq!(def[0].key, "A");
    assert!(doc.get_definition(&"missing".to_string()).is_none());
}

#[test]
fn exec_with_no_profile_fails_with_exit_code_one() {
    let doc = ConfigDocument::empty();
    match doc.plan_exec() {
        Err(e) => {
            assert_eq!(e, ExecError::NoProfileSelected);
            assert_eq!(e.exit_code(), 1);
        }
        Ok(_) => panic!("exec planned without a current profile"),
    }
}

#[test]
fn exec_with_unknown_current_fails() {
    let text = "{\"current\":\"ghost\",\"profiles\":{}}";
    let doc = parse_document(text).unwrap();
    match doc.plan_exec() {
        Err(e) => assert_eq!(e, ExecError::UnknownProfile),
        Ok(_) => panic!("exec planned for a missing profile"),
    }
}

#[test]
fn exec_plan_returns_the_current_definitions() {
    let mut doc = ConfigDocument::empty();
    doc.upsert("alpha".to_string(), vec![entry("A", VarKind::Literal, "1")]);
    let defs = doc.plan_exec().unwrap();
    assert_eq!(defs.len(), 1);
    assert_eq!(defs[0].key, "A");
    assert_eq!(defs[0].value, "1");
}

#[test]
fn child_exit_codes_are_forwarded_exactly() {
    assert_eq!(forward_exit_code(&ChildExit::Code(0)), 0);
    assert_eq!(forward_exit_code(&ChildExit::Code(1)), 1);
    assert_eq!(forward_exit_code(&ChildExit::Code(42)), 42);
    assert_eq!(forward_exit_code(&ChildExit::Code(255)), 255);
}

#[test]
fn signal_death_is_forwarded_as_one() {
    assert_eq!(forward_exit_code(&ChildExit::Signal), 1);
}

#[test]
fn empty_document_serializes_canonically() {
    let doc = ConfigDocument::empty();
    assert_eq!(serialize_document(&doc), "{\"current\":null,\"profiles\":{}}");
}

#[test]
fn canonical_empty_document_round_trips_as_text() {
    let text = "{\"current\":null,\"profiles\":{}}";
    let doc = parse_document(text).unwrap();
    assert!(doc.get_current().is_none());
    assert_eq!(doc.list_names().len(), 0);
    assert_eq!(serialize_document(&doc), text);
}

#[test]
fn document_round_trips_through_save_and_load() {
    let mut doc = ConfigDocument::empty();
    doc.upsert(
        "dev".to_string(),
        vec![
            entry("PLAIN", VarKind::Literal, "hello world"),
            entry("QUOTES", VarKind::Literal, "say \"hi\" \\ done"),
            entry("CTRL", VarKind::Literal, "tab\there\nnewline\u{1}end"),
            entry("CMD", VarKind::Command, "echo $PLAIN"),
        ],
    );
    doc.upsert("prod".to_string(), vec![entry("A", VarKind::Literal, "1")]);
    let text = serialize_document(&doc);
    let back = parse_document(&text).unwrap();
    assert_eq!(back.get_current().unwrap(), doc.get_current().unwrap());
    assert_eq!(back.list_names(), doc.list_names());
    let a = doc.get_definition(&"dev".to_string()).unwrap();
    let b = back.get_definition(&"dev".to_string()).unwrap();
    assert_eq!(a.len(), b.len());
    for i in 0..a.len() {
        assert_eq!(a[i].key, b[i].key);
        assert_eq!(a[i].kind, b[i].kind);
        assert_eq!(a[i].value, b[i].value);
    }
    // saving the loaded document reproduces the text exactly
    assert_eq!(serialize_document(&back), text);
}

#[test]
fn parser_accepts_standard_escapes() {
    let text = "{\"current\":null,\"profiles\":{\"p\":[{\"key\":\"K\",\"type\":\"value\",\"value\":\"a\\u0041\\n\\t\\\\\\\"\\/\"}]}}";
    let doc = parse_document(text).unwrap();
    let def = doc.get_definition(&"p".to_string()).unwrap();
    assert_eq!(def[0].value, "aA\n\t\\\"/");
}

#[test]
fn parser_rejects_malformed_documents() {
    assert!(parse_document("").is_err());
    assert!(parse_document("garbage").is_err());
    assert!(parse_document("{\"current\":null}").is_err());
    assert!(parse_document("{\"current\":null,\"profiles\":{}").is_err());
    assert!(parse_document("{\"current\":null,\"profiles\":{}}x").is_err());
    assert!(parse_document("{\"current\":null,\"profiles\":[]}").is_err());
    assert!(parse_document("{\"current\":3,\"profiles\":{}}").is_err());
}

#[test]
fn parser_rejects_unknown_kinds() {
    let text = "{\"current\":null,\"profiles\":{\"p\":[{\"key\":\"K\",\"type\":\"other\",\"value\":\"v\"}]}}";
    assert!(parse_document(text).is_err());
}

#[test]
fn parser_rejects_duplicate_profile_names() {
    let text = "{\"current\":null,\"profiles\":{\"p\":[],\"p\":[]}}";
    assert!(parse_document(text).is_err());
}

#[test]
fn parser_rejects_surrogate_escapes() {
    let text = "{\"current\":\"\\uD800\",\"profiles\":{}}";
    assert!(parse_document(text).is_err());
}

#[test]
fn trim_removes_leading_and_trailing_whitespace() {
    assert_eq!(trim("  a b \n"), "a b");
    assert_eq!(trim(""), "");
    assert_eq!(trim(" \t\r\n"), "");
    assert_eq!(trim("x"), "x");
    assert_eq!(trim("\u{a0}wide\u{3000}"), "wide");
}

#[test]
fn kind_names_parse_exactly() {
    assert_eq!(parse_kind("command"), Some(VarKind::Command));
    assert_eq!(parse_kind("value"), Some(VarKind::Literal));
    assert_eq!(parse_kind("Value"), None);
    assert_eq!(parse_kind(""), None);
}

#[test]
fn control_characters_are_escaped_on_save() {
    let mut doc = ConfigDocument::empty();
    doc.upsert("p".to_string(), vec![entry("K", VarKind::Literal, "a\u{1}b\nc")]);
    let text = serialize_document(&doc);
    assert!(text.contains("a\\u0001b\\nc"));
}
