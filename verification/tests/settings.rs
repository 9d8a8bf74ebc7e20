use quotaline::settings::{install, quote_cmd, uninstall, SettingsError};

const BLOCK: &str = "\"statusLine\": {
    \"type\": \"command\",
    \"command\": \"/usr/local/bin/quotaline\",
    \"refreshInterval\": 10
  }";

const EXE: &str = "/usr/local/bin/quotaline";

#[test]
fn only_a_path_with_whitespace_is_quoted() {
    assert_eq!(quote_cmd(EXE), EXE);
    assert_eq!(quote_cmd("/My Apps/quotaline"), "\"/My Apps/quotaline\"");
    assert_eq!(quote_cmd("a\u{a0}b"), "\"a\u{a0}b\"");
    assert_eq!(quote_cmd(""), "");
}

#[test]
fn a_missing_or_blank_file_is_an_empty_object() {
    for text in [None, Some(""), Some(" \n\t")] {
        let done = install(text, EXE, 10).unwrap();
        assert_eq!(done.text, format!("{{\n  {BLOCK}\n}}\n"));
        assert_eq!(done.command, EXE);
    }
}

#[test]
fn other_settings_keep_their_values_and_their_order() {
    let text = r#"{"zeta": [1, 2.5, null], "alpha": {"k": "v"}, "mid": true}"#;
    let done = install(Some(text), EXE, 10).unwrap();
    let expected = format!(
        "{{
  \"zeta\": [
    1,
    2.5,
    null
  ],
  \"alpha\": {{
    \"k\": \"v\"
  }},
  \"mid\": true,
  {BLOCK}
}}
"
    );
    assert_eq!(done.text, expected);
}

#[test]
fn an_existing_block_is_replaced_in_its_place() {
    let text = r#"{"a": 1, "statusLine": {"type": "old"}, "b": 2}"#;
    let done = install(Some(text), EXE, 10).unwrap();
    assert_eq!(
        done.text,
        format!("{{\n  \"a\": 1,\n  {BLOCK},\n  \"b\": 2\n}}\n")
    );
    // Installing again changes nothing.
    let again = install(Some(&done.text), EXE, 10).unwrap();
    assert_eq!(again.text, done.text);
}

#[test]
fn the_command_and_the_interval_are_wired_in() {
    let done = install(None, "/My Apps/quotaline", 18_446_744_073_709_551_615).unwrap();
    assert_eq!(done.command, "\"/My Apps/quotaline\"");
    assert!(done.text.contains(r#""command": "\"/My Apps/quotaline\"""#), "{}", done.text);
    assert!(done.text.contains("\"refreshInterval\": 18446744073709551615\n"), "{}", done.text);
}

#[test]
fn a_file_that_is_no_json_object_is_refused() {
    assert_eq!(install(Some("{oops"), EXE, 10).err(), Some(SettingsError::NotJson));
    assert_eq!(install(Some("[1]"), EXE, 10).err(), Some(SettingsError::NotObject));
    assert_eq!(uninstall("nope").err(), Some(SettingsError::NotJson));
    assert_eq!(uninstall("3").err(), Some(SettingsError::NotObject));
    assert_eq!(
        SettingsError::NotJson.message("/home/me/settings.json"),
        "/home/me/settings.json is not valid JSON — refusing to overwrite (fix or move it, then re-run)"
    );
    assert_eq!(
        SettingsError::NotObject.message("s.json"),
        "s.json is not a JSON object — refusing to overwrite"
    );
}

#[test]
fn uninstalling_undoes_installing() {
    let text = "{\n  \"a\": 1,\n  \"b\": {\n    \"c\": [],\n    \"d\": {}\n  }\n}\n";
    let done = install(Some(text), EXE, 10).unwrap();
    assert_ne!(done.text, text);
    // The file reads back as what was merged: nothing changes when it is installed again.
    assert_eq!(install(Some(&done.text), EXE, 10).unwrap().text, done.text);
    let back = uninstall(&done.text).unwrap();
    assert!(back.removed);
    assert_eq!(back.text, text);
    let nothing = uninstall(text).unwrap();
    assert!(!nothing.removed);
    assert_eq!(nothing.text, text);
}

#[test]
fn fractions_come_back_from_the_file() {
    let text = "{\n  \"a\": 0.1,\n  \"b\": [\n    -1234567.875,\n    1e-7,\n    1.5e+22,\n    0.0,\n    \
                123456789.012345\n  ],\n  \"c\": -0.0\n}\n";
    let done = install(Some(text), EXE, 10).unwrap();
    let back = uninstall(&done.text).unwrap();
    assert!(back.removed);
    assert_eq!(back.text, text);
    // Every decimal of up to fifteen digits does.
    let mut v: u64 = 1;
    for i in 0..2_000 {
        let point = i % 15 + 1;
        let digits = format!("{:015}", v % 1_000_000_000_000_000);
        let (whole, part) = digits.split_at(point.min(14));
        let n: f64 = format!("{whole}.{part}").parse().unwrap();
        let file = uninstall(&format!("{{\"n\": {whole_n}}}", whole_n = n)).unwrap().text;
        let again = install(Some(&file), EXE, 10).unwrap();
        assert_eq!(uninstall(&again.text).unwrap().text, file);
        v = v.wrapping_mul(6_364_136_223_846_793_005).wrapping_add(1_442_695_040_888_963_407);
    }
}

#[test]
fn removing_keeps_the_order_of_the_rest() {
    let text = r#"{"z": 1, "statusLine": {}, "y": 2, "a": 3}"#;
    let done = uninstall(text).unwrap();
    assert!(done.removed);
    assert_eq!(done.text, "{\n  \"z\": 1,\n  \"y\": 2,\n  \"a\": 3\n}\n");
    assert_eq!(uninstall("").unwrap().text, "{}\n");
}

#[test]
fn long_fractions_and_large_numbers_come_back_from_the_file() {
    let text = "{\n  \"a\": 3.141592653589793,\n  \"b\": 1e+30,\n  \"c\": 0.30000000000000004\n}\n";
    let done = install(Some(text), EXE, 10).unwrap();
    assert_ne!(done.text, text);
    let back = uninstall(&done.text).unwrap();
    assert!(back.removed);
    assert_eq!(back.text, text);
}
