use zenoh_facade::config::{pydict_to_props, Config};
use zenoh_facade::error::{ErrorKind, TranslatedError};

#[test]
fn empty_store_serializes_to_braces() {
    let c = Config::new();
    assert_eq!(c.json(), "{}");
    assert!(c.keys().is_empty());
    let d = Config::default();
    assert_eq!(d.json(), "{}");
}

#[test]
fn insert_json5_accepts_recognized_key() {
    let mut c = Config::new();
    assert!(c.insert_json5("mode", "\"peer\""));
    assert_eq!(c.json(), "{\"mode\":\"peer\"}");
    assert_eq!(c.keys(), vec!["mode".to_string()]);
}

#[test]
fn insert_json5_rejects_unknown_key() {
    let mut c = Config::new();
    assert!(!c.insert_json5("nope", "\"x\""));
    assert_eq!(c.json(), "{}");
}

#[test]
fn insert_json5_rejects_ill_typed_value() {
    let mut c = Config::new();
    assert!(!c.insert_json5("scouting.delay", "\"soon\""));
    assert!(c.insert_json5("scouting.delay", "200"));
    assert!(c.insert_json5("local_routing", "true"));
    assert!(!c.insert_json5("local_routing", "1"));
    assert_eq!(c.json(), "{\"scouting.delay\":200,\"local_routing\":true}");
}

#[test]
fn insert_json5_replaces_in_place() {
    let mut c = Config::new();
    assert!(c.insert_json5("mode", "\"peer\""));
    assert!(c.insert_json5("scouting.delay", "100"));
    assert!(c.insert_json5("mode", "\"client\""));
    assert_eq!(c.json(), "{\"mode\":\"client\",\"scouting.delay\":100}");
}

#[test]
fn round_trip_rebuilds_equal_store() {
    let mut c = Config::new();
    assert!(c.insert_json5("mode", "\"peer\""));
    assert!(c.insert_json5("scouting.delay", "250"));
    assert!(c.insert_json5("local_routing", "false"));
    assert!(c.insert_json5("id", "\"n1\""));
    let text = c.json();
    let c2 = Config::from_json5(&text).unwrap();
    assert_eq!(c2, c);
    assert_eq!(c2.keys(), c.keys());
    assert_eq!(c2.json(), text);
}

#[test]
fn strict_path_rejects_unknown_key() {
    let r = Config::from_json5("{\"not.a.real.key\": 1}");
    assert_eq!(r.unwrap_err().kind, ErrorKind::ValidationError);
}

#[test]
fn from_json5_parse_errors() {
    assert_eq!(Config::from_json5("{").unwrap_err().kind, ErrorKind::ParseError);
    assert_eq!(Config::from_json5("").unwrap_err().kind, ErrorKind::ParseError);
    assert_eq!(Config::from_json5("{\"mode\":}").unwrap_err().kind, ErrorKind::ParseError);
    assert_eq!(Config::from_json5("{} trailing").unwrap_err().kind, ErrorKind::ParseError);
}

#[test]
fn from_json5_accepts_comments_and_unquoted_keys() {
    let c = Config::from_json5("// a comment\n{ mode: \"peer\", scouting.delay: 7 }").unwrap();
    assert_eq!(c.json(), "{\"mode\":\"peer\",\"scouting.delay\":7}");
}

#[test]
fn from_json5_rejects_duplicate_keys() {
    let r = Config::from_json5("{\"mode\":\"peer\",\"mode\":\"client\"}");
    assert_eq!(r.unwrap_err().kind, ErrorKind::ValidationError);
}

#[test]
fn file_classification() {
    let io = Config::from_file_content(Err("No such file or directory (os error 2)".to_string()));
    let e = io.unwrap_err();
    assert_eq!(e.kind, ErrorKind::IoError);
    assert_eq!(e.message, "No such file or directory (os error 2)");

    let parse = Config::from_file_content(Ok("{ mode = ".to_string()));
    assert_eq!(parse.unwrap_err().kind, ErrorKind::ParseError);

    let val = Config::from_file_content(Ok("{\"not.a.real.key\": 1}".to_string()));
    assert_eq!(val.unwrap_err().kind, ErrorKind::ValidationError);
}

#[test]
fn file_structured_content_loads() {
    let c = Config::from_file_content(Ok("  {\"mode\":\"client\"}".to_string())).unwrap();
    assert_eq!(c.json(), "{\"mode\":\"client\"}");
}

#[test]
fn file_properties_format() {
    let text = "# a comment\nmode=peer\nscouting_delay=40\n\nlocal_routing=true\n";
    let c = Config::from_file_content(Ok(text.to_string())).unwrap();
    assert_eq!(c.json(), "{\"mode\":\"peer\",\"scouting.delay\":40,\"local_routing\":true}");
}

#[test]
fn file_properties_errors() {
    let r = Config::from_file_content(Ok("mode peer\n".to_string()));
    assert_eq!(r.unwrap_err().kind, ErrorKind::ParseError);

    let r2 = Config::from_file_content(Ok("nope=1\n".to_string()));
    assert_eq!(r2.unwrap_err().kind, ErrorKind::ValidationError);

    let r3 = Config::from_file_content(Ok("mode=peer\nmode=client\n".to_string()));
    assert_eq!(r3.unwrap_err().kind, ErrorKind::ValidationError);
}

#[test]
fn flat_mapping_drops_unknown_keys() {
    let dict = vec![
        ("mode".to_string(), "peer".to_string()),
        ("unknown_key".to_string(), "whatever".to_string()),
    ];
    let c = pydict_to_props(&dict);
    assert_eq!(c.keys(), vec!["mode".to_string()]);
    assert_eq!(c.json(), "{\"mode\":\"peer\"}");
}

#[test]
fn flat_mapping_transcodes_legacy_names() {
    let dict = vec![
        ("peer".to_string(), "tcp/203.0.113.1:7447".to_string()),
        ("multicast_scouting".to_string(), "false".to_string()),
        ("scouting_delay".to_string(), "25".to_string()),
    ];
    let c = pydict_to_props(&dict);
    assert_eq!(
        c.keys(),
        vec![
            "connect.endpoints".to_string(),
            "scouting.multicast.enabled".to_string(),
            "scouting.delay".to_string(),
        ]
    );
    assert_eq!(
        c.json(),
        "{\"connect.endpoints\":\"tcp/203.0.113.1:7447\",\"scouting.multicast.enabled\":false,\"scouting.delay\":25}"
    );
}

#[test]
fn integer_bounds_are_respected() {
    let mut c = Config::new();
    assert!(c.insert_json5("scouting.delay", "9223372036854775807"));
    assert!(!c.insert_json5("scouting.timeout", "9223372036854775808"));
    assert!(!c.insert_json5("scouting.timeout", "-5"));
    assert_eq!(c.json(), "{\"scouting.delay\":9223372036854775807}");
}

#[test]
fn error_message_carried_verbatim() {
    let e = TranslatedError::other("boom".to_string());
    assert_eq!(e.kind, ErrorKind::Other);
    assert_eq!(e.describe(), "boom");
    let p = TranslatedError::parse("bad char at 3".to_string());
    assert_eq!(p.kind, ErrorKind::ParseError);
    assert_eq!(p.message, "bad char at 3");
}
