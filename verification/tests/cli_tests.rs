use receipt_splitter::cli::{Args, ReceiptArgs, SchemaArgs};
use receipt_splitter::order::str_lt;

#[test]
fn input_path_is_returned_as_given() {
    let args = ReceiptArgs::new("my_receipt.json".to_string(), None);
    assert_eq!(args.get_input_path(), "my_receipt.json");
}

#[test]
fn output_path_defaults_to_input_stem() {
    let args = ReceiptArgs::new("my_receipt.json".to_string(), None);
    assert_eq!(args.get_output_path(), "my_receipt_output.json");
}

#[test]
fn explicit_output_path_wins() {
    let args = ReceiptArgs::new(
        "my_receipt.json".to_string(),
        Some("elsewhere.json".to_string()),
    );
    assert_eq!(args.get_output_path(), "elsewhere.json");
}

#[test]
fn output_path_keeps_the_directory() {
    let args = ReceiptArgs::new("/a/b/receipt.json".to_string(), None);
    assert_eq!(args.get_output_path(), "/a/b/receipt_output.json");
}

#[test]
fn output_path_stem_stops_at_the_last_dot() {
    let args = ReceiptArgs::new("/a/b/file.tar.json".to_string(), None);
    assert_eq!(args.get_output_path(), "/a/b/file.tar_output.json");
}

#[test]
fn output_path_for_hidden_file_keeps_whole_name() {
    let args = ReceiptArgs::new(".receipts".to_string(), None);
    assert_eq!(args.get_output_path(), ".receipts_output.json");
}

#[test]
fn output_path_without_extension_appends() {
    let args = ReceiptArgs::new("receipt".to_string(), None);
    assert_eq!(args.get_output_path(), "receipt_output.json");
}

#[test]
fn dot_in_directory_name_is_not_an_extension() {
    let args = ReceiptArgs::new("a.b/receipt".to_string(), None);
    assert_eq!(args.get_output_path(), "a.b/receipt_output.json");
}

#[test]
fn schema_output_path_defaults_to_fixed_name() {
    let args = SchemaArgs::new(None);
    assert_eq!(args.get_output_path(), "receipt_schema.json");
    let args = SchemaArgs::new(Some("shape.json".to_string()));
    assert_eq!(args.get_output_path(), "shape.json");
}

#[test]
fn args_carry_their_subcommand() {
    let compute = Args::Compute(ReceiptArgs::new("r.json".to_string(), None));
    let schema = Args::Schema(SchemaArgs::new(None));
    assert!(matches!(compute, Args::Compute(_)));
    assert!(matches!(schema, Args::Schema(_)));
}

#[test]
fn string_order_is_lexicographic() {
    assert!(str_lt("a", "b"));
    assert!(!str_lt("b", "a"));
    assert!(!str_lt("a", "a"));
    assert!(str_lt("a", "ab"));
    assert!(str_lt("", "a"));
    assert!(str_lt("Zeta", "alpha"));
}
