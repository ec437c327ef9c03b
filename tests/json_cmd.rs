use rtk::schema::{extract_schema, JsonValue};

fn obj(members: Vec<(&str, JsonValue)>) -> JsonValue {
    JsonValue::Object(members.into_iter().map(|(k, v)| (k.to_string(), v)).collect())
}

fn integer() -> JsonValue {
    JsonValue::Number { is_i64: true }
}

fn text(s: &str) -> JsonValue {
    JsonValue::Str(s.to_string())
}

#[test]
fn test_extract_schema_simple() {
    let json = obj(vec![("name", text("test")), ("count", integer())]);
    let schema = extract_schema(&json, 0, 5);
    assert!(schema.contains("name"));
    assert!(schema.contains("string"));
    assert!(schema.contains("int"));
}

#[test]
fn test_extract_schema_array() {
    let json = obj(vec![("items", JsonValue::Array(vec![integer(), integer(), integer()]))]);
    let schema = extract_schema(&json, 0, 5);
    assert!(schema.contains("items"));
    assert!(schema.contains("(3)"));
}

#[test]
fn schema_orders_keys() {
    let json = obj(vec![("name", text("test")), ("count", integer())]);
    assert_eq!(extract_schema(&json, 0, 5), "{\n  count: int,\n  name: string\n}");
}

#[test]
fn schema_array_inline_count() {
    let json = obj(vec![("items", JsonValue::Array(vec![integer(), integer(), integer()]))]);
    assert_eq!(extract_schema(&json, 0, 5), "{\n  items:\n  [int] (3)\n}");
}

#[test]
fn schema_array_samples_first_only() {
    let a = JsonValue::Array(vec![integer(), text("x")]);
    let b = JsonValue::Array(vec![integer(), JsonValue::Null]);
    assert_eq!(extract_schema(&a, 0, 5), "[int] (2)");
    assert_eq!(extract_schema(&a, 0, 5), extract_schema(&b, 0, 5));
}

#[test]
fn schema_single_element_array_block() {
    let json = JsonValue::Array(vec![JsonValue::Bool(true)]);
    assert_eq!(extract_schema(&json, 0, 5), "[\n  bool\n]");
}

#[test]
fn schema_empty_containers() {
    assert_eq!(extract_schema(&JsonValue::Array(Vec::new()), 0, 5), "[]");
    assert_eq!(extract_schema(&JsonValue::Object(Vec::new()), 1, 5), "  {}");
}

#[test]
fn schema_depth_guard() {
    let inner = JsonValue::Array(vec![JsonValue::Null, JsonValue::Null]);
    let json = JsonValue::Array(vec![inner]);
    assert_eq!(extract_schema(&json, 0, 0), "[\n  ...\n]");
    assert_eq!(extract_schema(&JsonValue::Null, 3, 2), "      ...");
}

#[test]
fn schema_string_labels() {
    assert_eq!(extract_schema(&text("https://example.com"), 0, 5), "url");
    assert_eq!(extract_schema(&text("2024-01-01"), 0, 5), "date?");
    assert_eq!(extract_schema(&text("abcd-efghi"), 0, 5), "date?");
    assert_eq!(extract_schema(&text(""), 0, 5), "string");
    assert_eq!(extract_schema(&text("plain"), 0, 5), "string");
    assert_eq!(extract_schema(&text(&"s".repeat(60)), 0, 5), "string[60]");
    assert_eq!(extract_schema(&text(&"s".repeat(50)), 0, 5), "string");
}

#[test]
fn schema_scalars() {
    assert_eq!(extract_schema(&JsonValue::Null, 0, 5), "null");
    assert_eq!(extract_schema(&JsonValue::Bool(false), 0, 5), "bool");
    assert_eq!(extract_schema(&JsonValue::Number { is_i64: false }, 0, 5), "float");
    assert_eq!(extract_schema(&integer(), 2, 5), "    int");
}

#[test]
fn schema_caps_keys() {
    let members: Vec<(String, JsonValue)> = (0..17).map(|i| (format!("k{:02}", i), JsonValue::Null)).collect();
    let schema = extract_schema(&JsonValue::Object(members), 0, 5);
    let mut expected = String::from("{");
    for i in 0..16 {
        expected.push_str(&format!("\n  k{:02}: null,", i));
    }
    expected.push_str("\n  ... +1 more keys\n}");
    assert_eq!(schema, expected);
}

#[test]
fn schema_sixteen_keys_reports_zero_more() {
    let members: Vec<(String, JsonValue)> = (0..16).map(|i| (format!("k{:02}", i), integer())).collect();
    let schema = extract_schema(&JsonValue::Object(members), 0, 5);
    assert!(schema.ends_with("\n  k15: int\n  ... +0 more keys\n}"));
}

#[test]
fn schema_nested_object() {
    let json = obj(vec![("user", obj(vec![("id", integer())])), ("a", JsonValue::Null)]);
    assert_eq!(extract_schema(&json, 0, 5), "{\n  a: null,\n  user:\n  {\n    id: int\n  }\n}");
}

#[test]
fn schema_string_lengths_count_bytes() {
    assert_eq!(extract_schema(&text("éééé-a"), 0, 5), "date?");
    assert_eq!(extract_schema(&text(&"é".repeat(26)), 0, 5), "string[52]");
    assert_eq!(extract_schema(&text(&"é".repeat(25)), 0, 5), "string");
}
