use receipt_splitter::schema::receipt_schema;

#[test]
fn schema_is_fixed() {
    // the operation takes no receipt data, so it always produces the same
    // document
    assert_eq!(receipt_schema(), receipt_schema());
    assert!(receipt_schema().starts_with("{"));
}

#[test]
fn schema_is_valid_json_describing_the_receipt_shape() {
    let text = receipt_schema();
    let v: serde_json::Value = serde_json::from_str(&text).unwrap();
    assert_eq!(v["title"].as_str(), Some("Receipt"));
    assert_eq!(v["type"].as_str(), Some("object"));
    let required = v["required"].as_array().unwrap();
    let names: Vec<&str> = required.iter().map(|r| r.as_str().unwrap()).collect();
    assert!(names.contains(&"items"));
    assert!(names.contains(&"extras"));
    assert!(names.contains(&"total"));
    assert_eq!(v["properties"]["items"]["type"].as_str(), Some("object"));
    assert_eq!(v["properties"]["extras"]["type"].as_str(), Some("object"));
    assert_eq!(v["properties"]["total"]["type"].as_str(), Some("number"));
    let item = &v["definitions"]["Item"];
    assert_eq!(item["type"].as_str(), Some("object"));
    assert_eq!(item["properties"]["price"]["type"].as_str(), Some("number"));
    assert_eq!(item["properties"]["people"]["type"].as_str(), Some("object"));
}

#[test]
fn sample_input_matches_the_schema_shape() {
    // the scenario input from the receipt computation parses under the shape
    // the schema declares
    let input = "{\"items\":{\"A\":{\"price\":10,\"people\":{\"x\":1,\"y\":1}}},\"extras\":{\"tax\":2},\"total\":12}";
    let v: serde_json::Value = serde_json::from_str(input).unwrap();
    assert!(v["items"].is_object());
    assert!(v["items"]["A"]["price"].is_number());
    assert!(v["items"]["A"]["people"].is_object());
    assert!(v["extras"].is_object());
    assert!(v["total"].is_number());
}
