use usbfwd::attach::toml::{parse, Error, Table, Value};

#[test]
fn parses_the_shipped_example_shape() {
    let src = r#"
# usbfwd.toml
[[server]]
name    = "steamdeck"
host    = "steamdeck.tailnet-name.ts.net"   # MagicDNS, or a raw IP
port    = 3240
devices = ["28de:1304", "28de:1305", "28de:*"]
auto_attach = true

[[server]]
name = "tablet"
host = "tablet.tailnet-name.ts.net"

[discovery]
mdns = false        # LAN convenience only; cannot work over Tailscale
"#;
    let t = parse(src).expect("parse");
    assert_eq!(t.len(), 3);
    assert_eq!(t[0].name, "server");
    assert_eq!(t[0].get("name"), Some(&Value::Str("steamdeck".into())));
    assert_eq!(
        t[0].get("host"),
        Some(&Value::Str("steamdeck.tailnet-name.ts.net".into()))
    );
    assert_eq!(t[0].get("port"), Some(&Value::Int(3240)));
    assert_eq!(
        t[0].get("devices"),
        Some(&Value::Array(vec![
            "28de:1304".into(),
            "28de:1305".into(),
            "28de:*".into()
        ]))
    );
    assert_eq!(t[0].get("auto_attach"), Some(&Value::Bool(true)));
    assert_eq!(t[1].name, "server");
    assert_eq!(t[1].get("port"), None, "absent keys stay absent");
    assert_eq!(t[2].name, "discovery");
    assert_eq!(t[2].get("mdns"), Some(&Value::Bool(false)));
}

#[test]
fn comments_inside_strings_survive() {
    let t = parse(r#"host = "a#b"  # trailing"#).unwrap();
    assert_eq!(t[0].get("host"), Some(&Value::Str("a#b".into())));
}

#[test]
fn arrays_may_span_lines() {
    let t = parse(
        r#"
devices = [
  "28de:1304",   # puck
  "28de:*",
]
"#,
    )
    .unwrap();
    assert_eq!(
        t[0].get("devices"),
        Some(&Value::Array(vec!["28de:1304".into(), "28de:*".into()]))
    );
}

#[test]
fn literal_and_escaped_strings() {
    let t = parse("a = 'c:\\path'\nb = \"tab\\there\"").unwrap();
    assert_eq!(t[0].get("a"), Some(&Value::Str("c:\\path".into())));
    assert_eq!(t[0].get("b"), Some(&Value::Str("tab\there".into())));
}

#[test]
fn errors_carry_the_line_number() {
    let e = parse("[[server]]\nname = \"a\"\nthis is not toml\n").unwrap_err();
    assert_eq!(e.line, 3);
    let e = parse("[[server]]\nport = 1\nport = 2\n").unwrap_err();
    assert_eq!(e.line, 3);
    assert!(e.message.contains("twice"));
    let e = parse("[server\n").unwrap_err();
    assert_eq!(e.line, 1);
    assert!(parse("x = \"unterminated").is_err());
    assert!(
        parse("x = [1, 2]").is_err(),
        "non-string arrays are rejected"
    );
    assert!(parse("[a]\nx=1\n[a]\ny=2").is_err(), "duplicate tables");
}

#[test]
fn unknown_keys_are_reportable() {
    let t = parse("[[server]]\nname = \"a\"\nhsot = \"typo\"").unwrap();
    assert_eq!(
        t[0].unknown_keys(&["name", "host"]),
        vec![("hsot".to_string(), 3)]
    );
}

#[test]
fn an_empty_file_yields_no_tables() {
    assert!(parse("").unwrap().is_empty());
    assert!(parse("# just a comment\n\n").unwrap().is_empty());
}

fn error(s: &str) -> (usize, String) {
    let e = parse(s).unwrap_err();
    (e.line, e.message)
}

#[test]
fn each_error_says_what_is_wrong() {
    let says = |line: usize, m: &str| (line, m.to_string());
    assert_eq!(error("[[a]\n"), says(1, "unterminated [[table]] header"));
    assert_eq!(error("\n[a"), says(2, "unterminated [table] header"));
    assert_eq!(
        error("[a]\n[a]"),
        says(2, "[a] appears more than once")
    );
    assert_eq!(
        error("just words # and more"),
        says(1, "expected `key = value`, found `just words`")
    );
    assert_eq!(error(" = 1"), says(1, "empty key"));
    assert_eq!(
        error("a = 1\na = 2"),
        says(2, "`a` is set twice in the same table")
    );
    assert_eq!(error("a = [\n\"x\","), says(1, "unterminated array"));
    assert_eq!(error("a ="), says(1, "missing value"));
    assert_eq!(error("a = \"x"), says(1, "unterminated string"));
    assert_eq!(
        error("a = \"x\\q\""),
        says(1, "unsupported escape `\\q`")
    );
    assert_eq!(
        error("a = \"x\\\""),
        says(1, "string ends in a backslash")
    );
    assert_eq!(
        error("a = [1]"),
        says(1, "arrays may only hold strings, found a integer")
    );
    assert_eq!(
        error("a = 1.5"),
        says(1, "`1.5` is not a string, integer or boolean")
    );
    let e = Error {
        line: 12,
        message: "empty key".to_string(),
    };
    assert_eq!(e.to_string(), "line 12: empty key");
}

#[test]
fn values_of_every_kind_are_read() {
    let t = parse("i = -42\np = +7\nb = true\ne = []\ns = \"\\n\\t\\r\\\"\\\\\"\n").unwrap();
    assert_eq!(t[0].get("i"), Some(&Value::Int(-42)));
    assert_eq!(t[0].get("p"), Some(&Value::Int(7)));
    assert_eq!(t[0].get("b"), Some(&Value::Bool(true)));
    assert_eq!(t[0].get("e"), Some(&Value::Array(vec![])));
    assert_eq!(t[0].get("s"), Some(&Value::Str("\n\t\r\"\\".to_string())));
    assert_eq!(t[0].get("i").unwrap().kind_name(), "integer");
    assert_eq!(t[0].get("e").unwrap().kind_name(), "array");
    assert_eq!(t[0].line_of("b"), 3);
    assert_eq!(t[0].line_of("nothing"), 0);
    assert_eq!(t[0].name, "");
}

#[test]
fn tables_in_arrays_may_share_a_name() {
    let t = parse("[[s]]\na = 1\n[[ s ]]\na = 2\n[t]\n").unwrap();
    assert_eq!(t.len(), 3);
    assert_eq!(t[1].name, "s");
    assert_eq!(t[1].get("a"), Some(&Value::Int(2)));
    assert_eq!(t[2].line, 5);
    assert!(t[2].entries.is_empty());
    assert_eq!(Table::default().entries.len(), 0);
}

#[test]
fn commas_in_strings_do_not_split_an_array() {
    let t = parse("a = [\"x,y\", 'z]', ]").unwrap();
    assert_eq!(
        t[0].get("a"),
        Some(&Value::Array(vec!["x,y".to_string(), "z]".to_string()]))
    );
}
