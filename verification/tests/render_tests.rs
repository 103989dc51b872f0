use jsonpp::json_object::JSONObject;
use jsonpp::parser::parse;
use jsonpp::renderer::render_indent;

fn s(x: &str) -> JSONObject {
    JSONObject::String { value: x.to_string() }
}

fn integer(n: i64) -> JSONObject {
    JSONObject::Integer { value: n }
}

fn float(tok: &str) -> JSONObject {
    JSONObject::Float { value: tok.to_string() }
}

#[test]
fn render_scalars() {
    assert_eq!(JSONObject::Null.render(), "null");
    assert_eq!(JSONObject::Bool { value: true }.render(), "true");
    assert_eq!(JSONObject::Bool { value: false }.render(), "false");
    assert_eq!(integer(0).render(), "0");
    assert_eq!(integer(42).render(), "42");
    assert_eq!(integer(-5).render(), "-5");
    assert_eq!(integer(i64::MIN).render(), "-9223372036854775808");
    assert_eq!(float("2.5").render(), "2.5");
    assert_eq!(float("2.50").render(), "2.50");
}

#[test]
fn render_simple_object() {
    let v = JSONObject::Object {
        children: vec![(s("k"), JSONObject::Bool { value: true })],
    };
    assert_eq!(v.render(), "{\n \"k\": true\n}");
}

#[test]
fn render_two_pair_object() {
    let v = JSONObject::Object { children: vec![(s("a"), integer(1)), (s("b"), integer(2))] };
    assert_eq!(v.render(), "{\n \"a\": 1, \n \"b\": 2\n}");
}

#[test]
fn render_empty_object_keeps_newlines() {
    let v = JSONObject::Object { children: vec![] };
    assert_eq!(v.render(), "{\n\n}");
}

#[test]
fn render_nested_object_indents_one_space_per_level() {
    let inner = JSONObject::Object { children: vec![(s("b"), integer(1))] };
    let v = JSONObject::Object { children: vec![(s("a"), inner)] };
    assert_eq!(v.render(), "{\n \"a\": {\n  \"b\": 1\n }\n}");
}

#[test]
fn render_array_stays_on_one_line() {
    let v = JSONObject::Array {
        values: vec![integer(1), JSONObject::Array { values: vec![integer(2), integer(3)] }],
    };
    assert_eq!(v.render(), "[1, [2, 3]]");
    assert_eq!(JSONObject::Array { values: vec![] }.render(), "[]");
}

#[test]
fn render_string_escapes_in_order() {
    assert_eq!(s("a\"b").render(), "\"a\\\"b\"");
    assert_eq!(s("a\tb").render(), "\"a\\tb\"");
    assert_eq!(s("a\nb").render(), "\"a\\nb\"");
    assert_eq!(s("a\rb").render(), "\"a\\rb\"");
    assert_eq!(s("a\\b").render(), "\"a\\\\b\"");
}

#[test]
fn render_non_ascii_as_lowercase_hex_escape() {
    assert_eq!(s("\u{e9}").render(), "\"\\u00e9\"");
    assert_eq!(s("\u{41f}").render(), "\"\\u041f\"");
    // a character beyond four hex digits keeps all its digits
    assert_eq!(s("\u{1f600}").render(), "\"\\u1f600\"");
}

#[test]
fn render_indent_pads_own_line_only() {
    assert_eq!(render_indent(&integer(7), 2, true), "  7");
    assert_eq!(render_indent(&integer(7), 2, false), "7");
    assert_eq!(render_indent(&s("x"), 3, true), "   \"x\"");
}

#[test]
fn render_bool_and_null_ignore_padding() {
    assert_eq!(render_indent(&JSONObject::Null, 2, true), "null");
    assert_eq!(render_indent(&JSONObject::Bool { value: true }, 2, true), "true");
}

#[test]
fn round_trip_of_stable_tree() {
    let v = JSONObject::Object {
        children: vec![
            (s("name"), s("line1\nline2")),
            (s("count"), integer(12)),
            (s("ratio"), float("0.5")),
            (s("flags"), JSONObject::Array {
                values: vec![JSONObject::Bool { value: true }, JSONObject::Null],
            }),
            (s("inner"), JSONObject::Object { children: vec![(s("k"), integer(3))] }),
        ],
    };
    let text = v.render();
    assert_eq!(parse(&text).unwrap(), v);
}

#[test]
fn round_trip_of_rendered_escapes() {
    let v = s("quote \" tab \t slash \\ accent \u{e9}");
    assert_eq!(parse(&v.render()).unwrap(), v);
}
