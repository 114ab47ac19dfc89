use route_rs::weights::{is_whitespace, splice_fields, FieldValue};

fn field(name: &str, value: &str) -> FieldValue {
    FieldValue { name: name.to_string(), value: value.to_string() }
}

#[test]
fn body_is_replaced_with_indented_fields() {
    let item = "fn weights() -> Self { Self {\n        input_size: 0,\n        output_size: 0,\n    } }";
    let out = splice_fields(
        item,
        &vec![field("input_size", "3"), field("hidden_weights", "vec![1.0, 2.5]")],
    );
    assert_eq!(
        out,
        "fn weights() -> Self { Self {        input_size: 3,\n        hidden_weights: vec![1.0, 2.5],\n        } }"
    );
}

#[test]
fn empty_field_list_leaves_indentation() {
    let out = splice_fields("S {\n\t\ta: 1 }", &vec![]);
    assert_eq!(out, "S {\t\t}");
}

#[test]
fn unicode_whitespace() {
    assert!(is_whitespace(' '));
    assert!(is_whitespace('\n'));
    assert!(is_whitespace('\u{3000}'));
    assert!(!is_whitespace('x'));
    assert!(!is_whitespace('\u{200b}'));
}
