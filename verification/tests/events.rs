use ein_infer::events::{push_json_str, Events, Level, Line};

#[test]
fn strings_escape_the_way_ensure_ascii_false_does() {
    let mut out = String::new();
    push_json_str(&mut out, "a\"b\\c\nd é");
    assert_eq!(out, "\"a\\\"b\\\\c\\nd é\"");
}

#[test]
fn a_line_keeps_its_field_order_and_python_spacing() {
    let (mut e, run) = Events::to(Level::Verbose);
    assert_eq!(run, r#"{"e": "run", "n": 0, "version": "ein-events/1", "level": "verbose"}"#);
    for _ in 0..41 {
        let _ = e.emit("tick", &Line::new());
    }
    let mut fields = Line::new();
    fields.str("rule", "symmetric");
    let line = e.emit("fire", &fields).expect("recording");
    assert_eq!(line, r#"{"e": "fire", "n": 42, "rule": "symmetric"}"#);
}

#[test]
fn control_characters_escape_as_four_hex_digits() {
    let mut out = String::new();
    push_json_str(&mut out, "\u{1}\t\r\u{1f}");
    assert_eq!(out, "\"\\u0001\\t\\r\\u001f\"");
}

#[test]
fn every_field_kind_renders_like_json_dumps() {
    let mut l = Line::new();
    l.num("n", -17);
    l.bool("b", true);
    l.bool("c", false);
    l.strs("s", &["x", "y"]);
    l.owned_strs("o", vec![]);
    l.str_lists("m", &[vec!["(p a)".to_string()], vec![]]);
    l.obj_strs("cfg", &[("k", "1".to_string()), ("j", "\"v\"".to_string())]);
    l.bindings("bind", vec![("x".to_string(), "a".to_string())]);
    assert_eq!(
        l.text(),
        r#"{"n": -17, "b": true, "c": false, "s": ["x", "y"], "o": [], "m": [["(p a)"], []], "cfg": {"k": 1, "j": "v"}, "bind": [["x", "a"]]"#
    );
}

#[test]
fn an_off_recorder_emits_nothing_and_counts_nothing() {
    let mut e = Events::off();
    assert!(!e.on());
    assert_eq!(e.emit("hyp", &Line::new()), None);
    assert_eq!(e.seq(), 0);
    assert!(!e.verbose());
}

#[test]
fn the_run_event_carries_the_callers_fields_last() {
    let mut extra = Line::new();
    extra.str("impl", "ein.rs");
    let (e, run) = Events::to_with(Level::Normal, &extra);
    assert_eq!(
        run,
        r#"{"e": "run", "n": 0, "version": "ein-events/1", "level": "normal", "impl": "ein.rs"}"#
    );
    assert_eq!(e.seq(), 1);
    assert!(e.on());
    assert_eq!(Level::Verbose.as_str(), "verbose");
}

/// Backspace and form feed have short escapes in `json.dumps`; other
/// control characters take four hex digits.
#[test]
fn backspace_and_form_feed_take_their_short_escapes() {
    let mut out = String::new();
    push_json_str(&mut out, "\u{8}\u{c}\u{1b}");
    assert_eq!(out, r#""\b\f\u001b""#);
}
